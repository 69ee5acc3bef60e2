//! The tape as one stream: the recorded changes of the book and the recorded
//! trades, merged in the order of their times.

pub mod interface;

use vstd::prelude::*;
use crate::history::parser::interface::EventProcessor;
use crate::history::types::{HistoryEvent, HistoryEventBody};
use crate::types::{DateTime, Direction, OrderID, Price, Size};

verus! {

/// The resting state of one order after a change of the book: when, how
/// much, on which side, at which price, and which order.
pub type ObDiffRow = (DateTime, Size, Direction, Price, OrderID);

/// One recorded trade: when, how much, the aggressor's direction, and the
/// identifier under which it was recorded.
pub type TradeRow = (DateTime, Size, Direction, OrderID);

/// One of the two records that make up the tape.
#[derive(Debug, PartialEq, Eq, Structural, Clone, Copy)]
pub enum HistoryStream {
    /// The changes of the book.
    ObDiff,
    /// The trades.
    Trade,
}

/// A row that was recorded before the row in front of it.
#[derive(Debug, PartialEq, Eq, Structural, Clone, Copy)]
pub struct OutOfOrder {
    /// The record in which the row stands.
    pub stream: HistoryStream,
    /// The place of the row in its record, counted from zero.
    pub row: usize,
}

/// The event that a change of the book is.
pub open spec fn ob_diff_event(row: ObDiffRow) -> HistoryEvent {
    HistoryEvent { datetime: row.0, event: HistoryEventBody::PRL(row.1, row.2, row.3, row.4) }
}

/// The event that a trade is.
pub open spec fn trade_event(row: TradeRow) -> HistoryEvent {
    HistoryEvent { datetime: row.0, event: HistoryEventBody::TRD(row.1, row.2) }
}

/// Whether a change of the book goes before a trade: it was recorded
/// earlier, or at the same instant unless the trade has the smaller identifier.
pub open spec fn ob_diff_goes_first(ob_diff: ObDiffRow, trade: TradeRow) -> bool {
    ob_diff.0.0 < trade.0.0 || (ob_diff.0.0 == trade.0.0 && !(trade.3.0 < ob_diff.4.0))
}

/// The two records as one stream of events.
pub open spec fn merged(ob_diffs: Seq<ObDiffRow>, trades: Seq<TradeRow>) -> Seq<HistoryEvent>
    decreases ob_diffs.len() + trades.len(),
{
    if ob_diffs.len() == 0 && trades.len() == 0 {
        Seq::empty()
    } else if trades.len() == 0 || (ob_diffs.len() != 0 && ob_diff_goes_first(
        ob_diffs[0],
        trades[0],
    )) {
        seq![ob_diff_event(ob_diffs[0])] + merged(ob_diffs.drop_first(), trades)
    } else {
        seq![trade_event(trades[0])] + merged(ob_diffs, trades.drop_first())
    }
}

/// Whether no change of the book was recorded before the one in front of it.
pub open spec fn ob_diffs_in_order(rows: Seq<ObDiffRow>) -> bool {
    forall|i: int, j: int| 0 <= i < j < rows.len() ==> (#[trigger] rows[i]).0.0 <= (#[trigger] rows[j]).0.0
}

/// Whether no trade was recorded before the one in front of it.
pub open spec fn trades_in_order(rows: Seq<TradeRow>) -> bool {
    forall|i: int, j: int| 0 <= i < j < rows.len() ==> (#[trigger] rows[i]).0.0 <= (#[trigger] rows[j]).0.0
}

/// Whether no event was recorded before the one in front of it.
pub open spec fn events_in_order(events: Seq<HistoryEvent>) -> bool {
    forall|i: int, j: int|
        0 <= i < j < events.len() ==> (#[trigger] events[i]).datetime.0 <= (
        #[trigger] events[j]).datetime.0
}

/// Whether no event was recorded before the given instant.
pub open spec fn events_not_before(events: Seq<HistoryEvent>, instant: int) -> bool {
    forall|i: int| 0 <= i < events.len() ==> (#[trigger] events[i]).datetime.0 >= instant
}

/// The merged stream holds every row of both records, and nothing else.
pub proof fn law_merged_holds_all(ob_diffs: Seq<ObDiffRow>, trades: Seq<TradeRow>)
    ensures
        merged(ob_diffs, trades).len() == ob_diffs.len() + trades.len(),
    decreases ob_diffs.len() + trades.len(),
{
    if ob_diffs.len() == 0 && trades.len() == 0 {
    } else if trades.len() == 0 || (ob_diffs.len() != 0 && ob_diff_goes_first(
        ob_diffs[0],
        trades[0],
    )) {
        law_merged_holds_all(ob_diffs.drop_first(), trades);
    } else {
        law_merged_holds_all(ob_diffs, trades.drop_first());
    }
}

/// No event of the merged stream is older than what both records start with.
proof fn lemma_merged_not_before(ob_diffs: Seq<ObDiffRow>, trades: Seq<TradeRow>, instant: int)
    requires
        ob_diffs_in_order(ob_diffs),
        trades_in_order(trades),
        ob_diffs.len() > 0 ==> ob_diffs[0].0.0 >= instant,
        trades.len() > 0 ==> trades[0].0.0 >= instant,
    ensures
        events_not_before(merged(ob_diffs, trades), instant),
    decreases ob_diffs.len() + trades.len(),
{
    let events = merged(ob_diffs, trades);
    if ob_diffs.len() == 0 && trades.len() == 0 {
    } else if trades.len() == 0 || (ob_diffs.len() != 0 && ob_diff_goes_first(
        ob_diffs[0],
        trades[0],
    )) {
        let rest = ob_diffs.drop_first();
        assert forall|i: int, j: int| 0 <= i < j < rest.len() implies (#[trigger] rest[i]).0.0 <= (
        #[trigger] rest[j]).0.0 by {
            assert(rest[i] == ob_diffs[i + 1] && rest[j] == ob_diffs[j + 1]);
        }
        if rest.len() > 0 {
            assert(rest[0] == ob_diffs[1]);
        }
        lemma_merged_not_before(rest, trades, instant);
        assert forall|i: int| 0 <= i < events.len() implies (#[trigger] events[i]).datetime.0
            >= instant by {
            if i > 0 {
                assert(events[i] == merged(rest, trades)[i - 1]);
            }
        }
    } else {
        let rest = trades.drop_first();
        assert forall|i: int, j: int| 0 <= i < j < rest.len() implies (#[trigger] rest[i]).0.0 <= (
        #[trigger] rest[j]).0.0 by {
            assert(rest[i] == trades[i + 1] && rest[j] == trades[j + 1]);
        }
        if rest.len() > 0 {
            assert(rest[0] == trades[1]);
        }
        lemma_merged_not_before(ob_diffs, rest, instant);
        assert forall|i: int| 0 <= i < events.len() implies (#[trigger] events[i]).datetime.0
            >= instant by {
            if i > 0 {
                assert(events[i] == merged(ob_diffs, rest)[i - 1]);
            }
        }
    }
}

/// Two records in the order of their times merge into a stream in the order of its times.
pub proof fn law_merged_in_order(ob_diffs: Seq<ObDiffRow>, trades: Seq<TradeRow>)
    requires
        ob_diffs_in_order(ob_diffs),
        trades_in_order(trades),
    ensures
        events_in_order(merged(ob_diffs, trades)),
    decreases ob_diffs.len() + trades.len(),
{
    let events = merged(ob_diffs, trades);
    if ob_diffs.len() == 0 && trades.len() == 0 {
    } else if trades.len() == 0 || (ob_diffs.len() != 0 && ob_diff_goes_first(
        ob_diffs[0],
        trades[0],
    )) {
        let rest = ob_diffs.drop_first();
        assert forall|i: int, j: int| 0 <= i < j < rest.len() implies (#[trigger] rest[i]).0.0 <= (
        #[trigger] rest[j]).0.0 by {
            assert(rest[i] == ob_diffs[i + 1] && rest[j] == ob_diffs[j + 1]);
        }
        if rest.len() > 0 {
            assert(rest[0] == ob_diffs[1]);
        }
        law_merged_in_order(rest, trades);
        lemma_merged_not_before(rest, trades, ob_diffs[0].0.0 as int);
        assert forall|i: int, j: int| 0 <= i < j < events.len() implies (
        #[trigger] events[i]).datetime.0 <= (#[trigger] events[j]).datetime.0 by {
            assert(events[j] == merged(rest, trades)[j - 1]);
            if i > 0 {
                assert(events[i] == merged(rest, trades)[i - 1]);
            }
        }
    } else {
        let rest = trades.drop_first();
        assert forall|i: int, j: int| 0 <= i < j < rest.len() implies (#[trigger] rest[i]).0.0 <= (
        #[trigger] rest[j]).0.0 by {
            assert(rest[i] == trades[i + 1] && rest[j] == trades[j + 1]);
        }
        if rest.len() > 0 {
            assert(rest[0] == trades[1]);
        }
        law_merged_in_order(ob_diffs, rest);
        lemma_merged_not_before(ob_diffs, rest, trades[0].0.0 as int);
        assert forall|i: int, j: int| 0 <= i < j < events.len() implies (
        #[trigger] events[i]).datetime.0 <= (#[trigger] events[j]).datetime.0 by {
            assert(events[j] == merged(ob_diffs, rest)[j - 1]);
            if i > 0 {
                assert(events[i] == merged(ob_diffs, rest)[i - 1]);
            }
        }
    }
}

/// The place of the first change of the book that was recorded before the
/// one in front of it; `None` where the record is in order.
pub fn first_ob_diff_out_of_order(rows: &Vec<ObDiffRow>) -> (r: Option<usize>)
    ensures
        r is None <==> ob_diffs_in_order(rows@),
        r matches Some(at) ==> 0 < at < rows.len() && rows[at as int].0.0 < rows[at - 1].0.0
            && ob_diffs_in_order(rows@.take(at as int)),
{
    let mut at: usize = 1;
    while at < rows.len()
        invariant
            1 <= at,
            forall|i: int| 0 < i < at && i < rows.len() ==> (#[trigger] rows[i - 1]).0.0 <= rows[i].0.0,
        decreases rows.len() - at,
    {
        if rows[at].0.0 < rows[at - 1].0.0 {
            proof {
                lemma_ob_diffs_stepwise(rows@.take(at as int));
            }
            return Some(at);
        }
        at = at + 1;
    }
    proof {
        lemma_ob_diffs_stepwise(rows@);
    }
    None
}

/// A record in which no row is older than its neighbour in front is in order.
proof fn lemma_ob_diffs_stepwise(rows: Seq<ObDiffRow>)
    requires
        forall|i: int| 0 < i < rows.len() ==> (#[trigger] rows[i - 1]).0.0 <= rows[i].0.0,
    ensures
        ob_diffs_in_order(rows),
    decreases rows.len(),
{
    if rows.len() > 1 {
        let front = rows.drop_last();
        assert forall|i: int| 0 < i < front.len() implies (#[trigger] front[i - 1]).0.0
            <= front[i].0.0 by {
            assert(front[i - 1] == rows[i - 1]);
            assert(front[i] == rows[i]);
        }
        lemma_ob_diffs_stepwise(front);
        assert forall|i: int, j: int| 0 <= i < j < rows.len() implies (#[trigger] rows[i]).0.0 <= (
        #[trigger] rows[j]).0.0 by {
            let last = rows.len() - 1;
            assert(rows[last - 1].0.0 <= rows[last].0.0);
            if j < last {
                assert(front[i] == rows[i] && front[j] == rows[j]);
            } else if i < last - 1 {
                assert(front[i] == rows[i] && front[last - 1] == rows[last - 1]);
            }
        }
    }
}

/// The place of the first trade that was recorded before the one in front of
/// it; `None` where the record is in order.
pub fn first_trade_out_of_order(rows: &Vec<TradeRow>) -> (r: Option<usize>)
    ensures
        r is None <==> trades_in_order(rows@),
        r matches Some(at) ==> 0 < at < rows.len() && rows[at as int].0.0 < rows[at - 1].0.0
            && trades_in_order(rows@.take(at as int)),
{
    let mut at: usize = 1;
    while at < rows.len()
        invariant
            1 <= at,
            forall|i: int| 0 < i < at && i < rows.len() ==> (#[trigger] rows[i - 1]).0.0 <= rows[i].0.0,
        decreases rows.len() - at,
    {
        if rows[at].0.0 < rows[at - 1].0.0 {
            proof {
                lemma_trades_stepwise(rows@.take(at as int));
            }
            return Some(at);
        }
        at = at + 1;
    }
    proof {
        lemma_trades_stepwise(rows@);
    }
    None
}

/// A record in which no row is older than its neighbour in front is in order.
proof fn lemma_trades_stepwise(rows: Seq<TradeRow>)
    requires
        forall|i: int| 0 < i < rows.len() ==> (#[trigger] rows[i - 1]).0.0 <= rows[i].0.0,
    ensures
        trades_in_order(rows),
    decreases rows.len(),
{
    if rows.len() > 1 {
        let front = rows.drop_last();
        assert forall|i: int| 0 < i < front.len() implies (#[trigger] front[i - 1]).0.0
            <= front[i].0.0 by {
            assert(front[i - 1] == rows[i - 1]);
            assert(front[i] == rows[i]);
        }
        lemma_trades_stepwise(front);
        assert forall|i: int, j: int| 0 <= i < j < rows.len() implies (#[trigger] rows[i]).0.0 <= (
        #[trigger] rows[j]).0.0 by {
            let last = rows.len() - 1;
            assert(rows[last - 1].0.0 <= rows[last].0.0);
            if j < last {
                assert(front[i] == rows[i] && front[j] == rows[j]);
            } else if i < last - 1 {
                assert(front[i] == rows[i] && front[last - 1] == rows[last - 1]);
            }
        }
    }
}

/// The tape as a stream of events: what is left of the two records, each in
/// the order of its times.
pub struct HistoryParser {
    ob_diffs: Vec<ObDiffRow>,
    trades: Vec<TradeRow>,
    next_ob_diff: usize,
    next_trade: usize,
}

/// What is left of the tape.
pub struct Tape {
    pub ob_diffs: Seq<ObDiffRow>,
    pub trades: Seq<TradeRow>,
}

impl View for HistoryParser {
    type V = Tape;

    closed spec fn view(&self) -> Tape {
        Tape {
            ob_diffs: self.ob_diffs@.skip(self.next_ob_diff as int),
            trades: self.trades@.skip(self.next_trade as int),
        }
    }
}

impl HistoryParser {
    #[verifier::type_invariant]
    spec fn in_order(self) -> bool {
        &&& self.next_ob_diff <= self.ob_diffs.len()
        &&& self.next_trade <= self.trades.len()
        &&& ob_diffs_in_order(self.ob_diffs@)
        &&& trades_in_order(self.trades@)
    }

    /// The stream of the two records. A record with a row that is older than
    /// the row in front of it is refused; where both have one, the changes of
    /// the book are named.
    pub fn new(ob_diffs: Vec<ObDiffRow>, trades: Vec<TradeRow>) -> (r: Result<
        HistoryParser,
        OutOfOrder,
    >)
        ensures
            r is Ok <==> ob_diffs_in_order(ob_diffs@) && trades_in_order(trades@),
            r matches Ok(parser) ==> parser@ == (Tape { ob_diffs: ob_diffs@, trades: trades@ }),
            r matches Err(found) ==> match found.stream {
                HistoryStream::ObDiff => 0 < found.row < ob_diffs.len()
                    && ob_diffs[found.row as int].0.0 < ob_diffs[found.row - 1].0.0
                    && ob_diffs_in_order(ob_diffs@.take(found.row as int)),
                HistoryStream::Trade => ob_diffs_in_order(ob_diffs@) && 0 < found.row
                    < trades.len() && trades[found.row as int].0.0 < trades[found.row - 1].0.0
                    && trades_in_order(trades@.take(found.row as int)),
            },
    {
        match first_ob_diff_out_of_order(&ob_diffs) {
            Some(row) => {
                return Err(OutOfOrder { stream: HistoryStream::ObDiff, row });
            },
            None => {},
        }
        match first_trade_out_of_order(&trades) {
            Some(row) => {
                return Err(OutOfOrder { stream: HistoryStream::Trade, row });
            },
            None => {},
        }
        let parser = HistoryParser { ob_diffs, trades, next_ob_diff: 0, next_trade: 0 };
        proof {
            assert(parser@.ob_diffs =~= ob_diffs@);
            assert(parser@.trades =~= trades@);
        }
        Ok(parser)
    }
}

impl EventProcessor for HistoryParser {
    /// The next event of the merged stream, which is in the order of its times.
    fn yield_next_event(&mut self) -> (r: Option<HistoryEvent>)
        ensures
            events_in_order(merged(old(self)@.ob_diffs, old(self)@.trades)),
            match r {
                Some(event) => merged(old(self)@.ob_diffs, old(self)@.trades).len() > 0 && event
                    == merged(old(self)@.ob_diffs, old(self)@.trades)[0] && merged(
                    final(self)@.ob_diffs,
                    final(self)@.trades,
                ) == merged(old(self)@.ob_diffs, old(self)@.trades).drop_first(),
                None => merged(old(self)@.ob_diffs, old(self)@.trades).len() == 0 && final(self)@
                    == old(self)@,
            },
    {
        let ghost before = self@;
        proof {
            use_type_invariant(&*self);
            let ob_diffs = before.ob_diffs;
            let trades = before.trades;
            assert forall|i: int, j: int| 0 <= i < j < ob_diffs.len() implies (
            #[trigger] ob_diffs[i]).0.0 <= (#[trigger] ob_diffs[j]).0.0 by {
                assert(ob_diffs[i] == self.ob_diffs@[i + self.next_ob_diff]);
                assert(ob_diffs[j] == self.ob_diffs@[j + self.next_ob_diff]);
            }
            assert forall|i: int, j: int| 0 <= i < j < trades.len() implies (
            #[trigger] trades[i]).0.0 <= (#[trigger] trades[j]).0.0 by {
                assert(trades[i] == self.trades@[i + self.next_trade]);
                assert(trades[j] == self.trades@[j + self.next_trade]);
            }
            law_merged_in_order(ob_diffs, trades);
        }
        let has_ob_diff = self.next_ob_diff < self.ob_diffs.len();
        let has_trade = self.next_trade < self.trades.len();
        if !has_ob_diff && !has_trade {
            return None;
        }
        let ob_diff_first = if !has_trade {
            true
        } else if !has_ob_diff {
            false
        } else {
            let ob_diff = self.ob_diffs[self.next_ob_diff];
            let trade = self.trades[self.next_trade];
            ob_diff.0.0 < trade.0.0 || (ob_diff.0.0 == trade.0.0 && !(trade.3.0 < ob_diff.4.0))
        };
        if ob_diff_first {
            let row = self.ob_diffs[self.next_ob_diff];
            self.next_ob_diff = self.next_ob_diff + 1;
            proof {
                assert(before.ob_diffs[0] == row);
                assert(self@.ob_diffs =~= before.ob_diffs.drop_first());
                assert(self@.trades =~= before.trades);
                let rest = merged(before.ob_diffs.drop_first(), before.trades);
                assert((seq![ob_diff_event(row)] + rest).drop_first() =~= rest);
            }
            Some(HistoryEvent { datetime: row.0, event: HistoryEventBody::PRL(row.1, row.2, row.3, row.4) })
        } else {
            let row = self.trades[self.next_trade];
            self.next_trade = self.next_trade + 1;
            proof {
                assert(before.trades[0] == row);
                assert(self@.trades =~= before.trades.drop_first());
                assert(self@.ob_diffs =~= before.ob_diffs);
                let rest = merged(before.ob_diffs, before.trades.drop_first());
                assert((seq![trade_event(row)] + rest).drop_first() =~= rest);
            }
            Some(HistoryEvent { datetime: row.0, event: HistoryEventBody::TRD(row.1, row.2) })
        }
    }
}

} // verus!
