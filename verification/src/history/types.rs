//! Events of the replayed tape.

use vstd::prelude::*;
use crate::types::{DateTime, Direction, OrderID, Price, Size};

verus! {

/// Who owns a resting order.
#[derive(Debug, PartialEq, Eq, Structural, Clone, Copy)]
pub enum OrderOrigin {
    History,
    Trader,
}

/// What the tape recorded: a trade, or the new resting state of one order.
#[derive(Debug, PartialEq, Eq, Structural, PartialOrd, Ord, Clone, Copy)]
pub enum HistoryEventBody {
    /// An execution of the given size, with the aggressor's direction.
    TRD(Size, Direction),
    /// The resting size of an order after a change; size zero removes it.
    PRL(Size, Direction, Price, OrderID),
}

/// One event of the tape with the instant at which it was recorded.
#[derive(Debug, PartialEq, Eq, Structural, Clone, Copy)]
pub struct HistoryEvent {
    pub datetime: DateTime,
    pub event: HistoryEventBody,
}

} // verus!

verus! {

/// The columns of the tape's records.
#[derive(Debug, PartialEq, Eq, Structural, Clone, Copy)]
pub enum Column {
    DateTime,
    OrderID,
    Price,
    Size,
    BuySellFlag,
}

/// The names under which the columns stand in the head of a record.
pub struct ColumnNames {
    pub datetime: Vec<u8>,
    pub order_id: Vec<u8>,
    pub price: Vec<u8>,
    pub size: Vec<u8>,
    pub bs_flag: Vec<u8>,
}

/// The names of the columns as contracts see them.
pub struct ColumnNamesView {
    pub datetime: Seq<u8>,
    pub order_id: Seq<u8>,
    pub price: Seq<u8>,
    pub size: Seq<u8>,
    pub bs_flag: Seq<u8>,
}

impl View for ColumnNames {
    type V = ColumnNamesView;

    open spec fn view(&self) -> ColumnNamesView {
        ColumnNamesView {
            datetime: self.datetime@,
            order_id: self.order_id@,
            price: self.price@,
            size: self.size@,
            bs_flag: self.bs_flag@,
        }
    }
}

/// Where each column was found in the head of a record, as far as it was found.
#[derive(Debug, PartialEq, Eq, Structural, Clone, Copy)]
pub struct ColumnSlots {
    pub datetime: Option<usize>,
    pub order_id: Option<usize>,
    pub price: Option<usize>,
    pub size: Option<usize>,
    pub bs_flag: Option<usize>,
}

/// Where the columns of a record of changes of the book stand.
#[derive(Debug, PartialEq, Eq, Structural, Clone, Copy)]
pub struct PRLColumnIndexInfo {
    pub price_idx: usize,
    pub size_idx: usize,
    pub datetime_idx: usize,
    pub buy_sell_flag_idx: usize,
    pub order_id_idx: usize,
}

/// Where the columns of a record of trades stand.
#[derive(Debug, PartialEq, Eq, Structural, Clone, Copy)]
pub struct TRDColumnIndexInfo {
    pub size_idx: usize,
    pub datetime_idx: usize,
    pub buy_sell_flag_idx: usize,
    pub order_id_idx: usize,
}

/// What is wrong with the head of a record.
#[derive(Debug, PartialEq, Eq, Structural, Clone, Copy)]
pub enum ColumnError {
    /// The column stands in the head twice.
    Duplicate(Column),
    /// The column does not stand in the head.
    Missing(Column),
}

/// The fields of a row as contracts see them.
pub open spec fn fields_view(fields: Seq<Vec<u8>>) -> Seq<Seq<u8>> {
    fields.map_values(|field: Vec<u8>| field@)
}

/// The column that a name in the head of a record stands for, if any. A
/// name that several columns share stands for the first of them in the
/// order identifier, time, size, price, flag; the price is looked for only
/// where the record has prices.
pub open spec fn column_of(name: Seq<u8>, names: ColumnNamesView, with_price: bool) -> Option<
    Column,
> {
    if name == names.order_id {
        Some(Column::OrderID)
    } else if name == names.datetime {
        Some(Column::DateTime)
    } else if name == names.size {
        Some(Column::Size)
    } else if with_price && name == names.price {
        Some(Column::Price)
    } else if name == names.bs_flag {
        Some(Column::BuySellFlag)
    } else {
        None
    }
}

impl ColumnSlots {
    /// No column found.
    pub open spec fn spec_empty() -> ColumnSlots {
        ColumnSlots { datetime: None, order_id: None, price: None, size: None, bs_flag: None }
    }

    /// Where the given column was found.
    pub open spec fn spec_get(self, column: Column) -> Option<usize> {
        match column {
            Column::DateTime => self.datetime,
            Column::OrderID => self.order_id,
            Column::Price => self.price,
            Column::Size => self.size,
            Column::BuySellFlag => self.bs_flag,
        }
    }

    /// The slots with the given column found at the given place.
    pub open spec fn spec_set(self, column: Column, at: usize) -> ColumnSlots {
        match column {
            Column::DateTime => ColumnSlots { datetime: Some(at), ..self },
            Column::OrderID => ColumnSlots { order_id: Some(at), ..self },
            Column::Price => ColumnSlots { price: Some(at), ..self },
            Column::Size => ColumnSlots { size: Some(at), ..self },
            Column::BuySellFlag => ColumnSlots { bs_flag: Some(at), ..self },
        }
    }

    /// Where the given column was found.
    pub fn get(&self, column: Column) -> (r: Option<usize>)
        ensures
            r == self.spec_get(column),
    {
        match column {
            Column::DateTime => self.datetime,
            Column::OrderID => self.order_id,
            Column::Price => self.price,
            Column::Size => self.size,
            Column::BuySellFlag => self.bs_flag,
        }
    }

    /// Notes that the given column was found at the given place.
    pub fn set(&mut self, column: Column, at: usize)
        ensures
            *final(self) == old(self).spec_set(column, at),
    {
        match column {
            Column::DateTime => self.datetime = Some(at),
            Column::OrderID => self.order_id = Some(at),
            Column::Price => self.price = Some(at),
            Column::Size => self.size = Some(at),
            Column::BuySellFlag => self.bs_flag = Some(at),
        }
    }
}

/// Where the columns stand in the head of a record, read from left to
/// right; the first column that stands there twice, where one does.
pub open spec fn scan_columns(head: Seq<Seq<u8>>, names: ColumnNamesView, with_price: bool) -> Result<
    ColumnSlots,
    Column,
>
    decreases head.len(),
{
    if head.len() == 0 {
        Ok(ColumnSlots::spec_empty())
    } else {
        match scan_columns(head.drop_last(), names, with_price) {
            Err(column) => Err(column),
            Ok(slots) => match column_of(head.last(), names, with_price) {
                None => Ok(slots),
                Some(column) => if slots.spec_get(column) is Some {
                    Err(column)
                } else {
                    Ok(slots.spec_set(column, (head.len() - 1) as usize))
                },
            },
        }
    }
}

/// Every column that a scan found stands where the scan says, under its name.
pub proof fn law_scanned_columns_stand(
    head: Seq<Seq<u8>>,
    names: ColumnNamesView,
    with_price: bool,
    column: Column,
)
    requires
        head.len() <= usize::MAX,
        scan_columns(head, names, with_price) is Ok,
        scan_columns(head, names, with_price)->Ok_0.spec_get(column) is Some,
    ensures
        ({
            let at = scan_columns(head, names, with_price)->Ok_0.spec_get(column)->0;
            at < head.len() && column_of(head[at as int], names, with_price) == Some(column)
        }),
    decreases head.len(),
{
    if head.len() > 0 {
        let before = scan_columns(head.drop_last(), names, with_price)->Ok_0;
        if before.spec_get(column) is Some {
            law_scanned_columns_stand(head.drop_last(), names, with_price, column);
            let at = before.spec_get(column)->0;
            assert(head.drop_last()[at as int] == head[at as int]);
        }
    }
}

/// The column that a name in the head of a record stands for, if any.
pub fn find_column(name: &[u8], names: &ColumnNames, with_price: bool) -> (r: Option<Column>)
    ensures
        r == column_of(name@, names@, with_price),
{
    if crate::history::text::same_text(name, names.order_id.as_slice()) {
        Some(Column::OrderID)
    } else if crate::history::text::same_text(name, names.datetime.as_slice()) {
        Some(Column::DateTime)
    } else if crate::history::text::same_text(name, names.size.as_slice()) {
        Some(Column::Size)
    } else if with_price && crate::history::text::same_text(name, names.price.as_slice()) {
        Some(Column::Price)
    } else if crate::history::text::same_text(name, names.bs_flag.as_slice()) {
        Some(Column::BuySellFlag)
    } else {
        None
    }
}

/// Finds the columns in the head of a record.
pub fn find_columns(head: &Vec<Vec<u8>>, names: &ColumnNames, with_price: bool) -> (r: Result<
    ColumnSlots,
    Column,
>)
    ensures
        r == scan_columns(fields_view(head@), names@, with_price),
{
    let ghost fields = fields_view(head@);
    let mut slots = ColumnSlots {
        datetime: None,
        order_id: None,
        price: None,
        size: None,
        bs_flag: None,
    };
    let mut at: usize = 0;
    proof {
        assert(fields.take(0) =~= Seq::<Seq<u8>>::empty());
    }
    while at < head.len()
        invariant
            at <= head.len(),
            fields == fields_view(head@),
            scan_columns(fields.take(at as int), names@, with_price) == Ok::<ColumnSlots, Column>(
                slots,
            ),
        decreases head.len() - at,
    {
        proof {
            assert(fields.take(at + 1).drop_last() =~= fields.take(at as int));
            assert(fields.take(at + 1).last() == head@[at as int]@);
        }
        match find_column(head[at].as_slice(), names, with_price) {
            None => {},
            Some(column) => {
                if slots.get(column).is_some() {
                    proof {
                        lemma_scan_fails_on(fields, names@, with_price, at + 1);
                    }
                    return Err(column);
                }
                slots.set(column, at);
            },
        }
        at = at + 1;
    }
    proof {
        assert(fields.take(at as int) =~= fields);
    }
    Ok(slots)
}

/// A scan that fails on the first names of a head fails in the same way on the whole head.
pub proof fn lemma_scan_fails_on(
    head: Seq<Seq<u8>>,
    names: ColumnNamesView,
    with_price: bool,
    read: int,
)
    requires
        0 <= read <= head.len(),
        scan_columns(head.take(read), names, with_price) is Err,
    ensures
        scan_columns(head, names, with_price) == scan_columns(head.take(read), names, with_price),
    decreases head.len() - read,
{
    if read == head.len() {
        assert(head.take(read) =~= head);
    } else {
        assert(head.take(read + 1).drop_last() =~= head.take(read));
        lemma_scan_fails_on(head, names, with_price, read + 1);
    }
}

/// Where the columns of a record of changes of the book stand: every
/// column once. A column that stands twice is named first; of those that
/// are missing, the first in the order price, size, time, flag, identifier.
pub open spec fn prl_columns(head: Seq<Seq<u8>>, names: ColumnNamesView) -> Result<
    PRLColumnIndexInfo,
    ColumnError,
> {
    match scan_columns(head, names, true) {
        Err(column) => Err(ColumnError::Duplicate(column)),
        Ok(slots) => if slots.price is None {
            Err(ColumnError::Missing(Column::Price))
        } else if slots.size is None {
            Err(ColumnError::Missing(Column::Size))
        } else if slots.datetime is None {
            Err(ColumnError::Missing(Column::DateTime))
        } else if slots.bs_flag is None {
            Err(ColumnError::Missing(Column::BuySellFlag))
        } else if slots.order_id is None {
            Err(ColumnError::Missing(Column::OrderID))
        } else {
            Ok(
                PRLColumnIndexInfo {
                    price_idx: slots.price->0,
                    size_idx: slots.size->0,
                    datetime_idx: slots.datetime->0,
                    buy_sell_flag_idx: slots.bs_flag->0,
                    order_id_idx: slots.order_id->0,
                },
            )
        },
    }
}

/// Where the columns of a record of trades stand: every column but the
/// price once. A column that stands twice is named first; of those that are
/// missing, the first in the order size, time, flag, identifier.
pub open spec fn trd_columns(head: Seq<Seq<u8>>, names: ColumnNamesView) -> Result<
    TRDColumnIndexInfo,
    ColumnError,
> {
    match scan_columns(head, names, false) {
        Err(column) => Err(ColumnError::Duplicate(column)),
        Ok(slots) => if slots.size is None {
            Err(ColumnError::Missing(Column::Size))
        } else if slots.datetime is None {
            Err(ColumnError::Missing(Column::DateTime))
        } else if slots.bs_flag is None {
            Err(ColumnError::Missing(Column::BuySellFlag))
        } else if slots.order_id is None {
            Err(ColumnError::Missing(Column::OrderID))
        } else {
            Ok(
                TRDColumnIndexInfo {
                    size_idx: slots.size->0,
                    datetime_idx: slots.datetime->0,
                    buy_sell_flag_idx: slots.bs_flag->0,
                    order_id_idx: slots.order_id->0,
                },
            )
        },
    }
}

impl PRLColumnIndexInfo {
    /// Finds the columns of a record of changes of the book in its head.
    pub fn new_for_csv(head: &Vec<Vec<u8>>, names: &ColumnNames) -> (r: Result<
        PRLColumnIndexInfo,
        ColumnError,
    >)
        ensures
            r == prl_columns(fields_view(head@), names@),
    {
        let slots = match find_columns(head, names, true) {
            Err(column) => {
                return Err(ColumnError::Duplicate(column));
            },
            Ok(slots) => slots,
        };
        let price_idx = match slots.price {
            None => {
                return Err(ColumnError::Missing(Column::Price));
            },
            Some(at) => at,
        };
        let size_idx = match slots.size {
            None => {
                return Err(ColumnError::Missing(Column::Size));
            },
            Some(at) => at,
        };
        let datetime_idx = match slots.datetime {
            None => {
                return Err(ColumnError::Missing(Column::DateTime));
            },
            Some(at) => at,
        };
        let buy_sell_flag_idx = match slots.bs_flag {
            None => {
                return Err(ColumnError::Missing(Column::BuySellFlag));
            },
            Some(at) => at,
        };
        let order_id_idx = match slots.order_id {
            None => {
                return Err(ColumnError::Missing(Column::OrderID));
            },
            Some(at) => at,
        };
        Ok(PRLColumnIndexInfo { price_idx, size_idx, datetime_idx, buy_sell_flag_idx, order_id_idx })
    }
}

impl TRDColumnIndexInfo {
    /// Finds the columns of a record of trades in its head.
    pub fn new_for_csv(head: &Vec<Vec<u8>>, names: &ColumnNames) -> (r: Result<
        TRDColumnIndexInfo,
        ColumnError,
    >)
        ensures
            r == trd_columns(fields_view(head@), names@),
    {
        let slots = match find_columns(head, names, false) {
            Err(column) => {
                return Err(ColumnError::Duplicate(column));
            },
            Ok(slots) => slots,
        };
        let size_idx = match slots.size {
            None => {
                return Err(ColumnError::Missing(Column::Size));
            },
            Some(at) => at,
        };
        let datetime_idx = match slots.datetime {
            None => {
                return Err(ColumnError::Missing(Column::DateTime));
            },
            Some(at) => at,
        };
        let buy_sell_flag_idx = match slots.bs_flag {
            None => {
                return Err(ColumnError::Missing(Column::BuySellFlag));
            },
            Some(at) => at,
        };
        let order_id_idx = match slots.order_id {
            None => {
                return Err(ColumnError::Missing(Column::OrderID));
            },
            Some(at) => at,
        };
        Ok(TRDColumnIndexInfo { size_idx, datetime_idx, buy_sell_flag_idx, order_id_idx })
    }
}

} // verus!
