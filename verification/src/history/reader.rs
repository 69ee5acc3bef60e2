//! The tape's records as they are written: text in columns, one row to an
//! event. Splitting the text into rows and fields is left to the `csv`
//! crate, and reading a time to `chrono`; everything else is done here.

use vstd::prelude::*;
use crate::history::parser::{ObDiffRow, TradeRow};
use crate::history::text::{
    decimal_of, direction_of, parse_direction, parse_u64, ticks_of, unsigned_of, Decimal,
};
use crate::history::types::{
    fields_view, prl_columns, trd_columns, ColumnError, ColumnNames, ColumnNamesView, HistoryEvent,
    PRLColumnIndexInfo, TRDColumnIndexInfo,
};
use crate::types::{DateTime, OrderID, Price, Size};

verus! {

/// What the `csv` crate reports when a text is no table.
#[verifier::external_type_specification]
#[verifier::external_body]
pub struct ExCsvError(csv::Error);

/// The rows and fields into which the `csv` crate splits a text with the
/// given separator, the head of the table being the first row; `None` where
/// it reports an error instead.
pub uninterp spec fn csv_table(content: Seq<u8>, sep: u8) -> Option<Seq<Seq<Seq<u8>>>>;

/// The nanoseconds from the epoch to the time that `chrono` reads from a
/// text in the given format, taken as a time without zone; `None` where the
/// text or the format is not UTF-8, where `chrono` reads no time, or where
/// the time is too far from the epoch for an `i64`.
pub uninterp spec fn datetime_of(text: Seq<u8>, format: Seq<u8>) -> Option<i64>;

/// The rows of a table as contracts see them.
pub open spec fn table_view(records: Seq<Vec<Vec<u8>>>) -> Seq<Seq<Seq<u8>>> {
    records.map_values(|row: Vec<Vec<u8>>| fields_view(row@))
}

/// Splits a text into rows and fields with `csv::Reader::records`, built by
/// a `csv::ReaderBuilder` with the given separator and without a header row,
/// so that the head of the table is the first row. The contract claims only
/// that the outcome is the one that `csv_table` names.
#[verifier::external_body]
fn csv_records(content: &[u8], sep: u8) -> (r: Result<Vec<Vec<Vec<u8>>>, csv::Error>)
    ensures
        match r {
            Ok(records) => csv_table(content@, sep) == Some(table_view(records@)),
            Err(_) => csv_table(content@, sep) is None,
        },
{
    let mut reader = csv::ReaderBuilder::new().delimiter(sep).has_headers(false).from_reader(
        content,
    );
    reader.records().map(
        |record| record.map(|fields| fields.iter().map(|field| field.as_bytes().to_vec()).collect()),
    ).collect()
}

/// The number of the record at which the `csv` crate found the error, from
/// `csv::Error::position`, where the error has a position. Nothing is
/// claimed of it.
#[verifier::external_body]
fn csv_error_record(error: &csv::Error) -> Option<u64> {
    error.position().map(|position| position.record())
}

/// Reads a time with `chrono::NaiveDateTime::parse_from_str` and takes it as
/// nanoseconds from the epoch with `and_utc` and `timestamp_nanos_opt`. The
/// contract claims only that the outcome is the one that `datetime_of` names.
#[verifier::external_body]
fn parse_datetime(text: &[u8], format: &[u8]) -> (r: Option<DateTime>)
    ensures
        r == match datetime_of(text@, format@) {
            Some(nanoseconds) => Some(DateTime(nanoseconds)),
            None => None,
        },
{
    let text = std::str::from_utf8(text).ok()?;
    let format = std::str::from_utf8(format).ok()?;
    let datetime = chrono::NaiveDateTime::parse_from_str(text, format).ok()?;
    datetime.and_utc().timestamp_nanos_opt().map(DateTime)
}

/// What is wrong with a row.
#[derive(Debug, PartialEq, Eq, Structural, Clone, Copy)]
pub enum RowError {
    /// The row has fewer fields than the head has columns.
    MissingField,
    /// The time cannot be read in the given format.
    BadDateTime,
    /// The size is no whole number.
    BadSize,
    /// The flag is none of the texts that tell buyers from sellers.
    BadDirection,
    /// The price is no whole number of ticks.
    BadPrice,
    /// The identifier is no whole number.
    BadOrderID,
}

/// What is wrong with a record.
#[derive(Debug, PartialEq, Eq, Structural, Clone, Copy)]
pub enum HistoryError {
    /// The text is no table; the number of the offending record is given where it is known.
    MalformedCsv { record: Option<u64> },
    /// The table has no head.
    NoHeader,
    /// The head is not as it should be.
    Columns(ColumnError),
    /// A row cannot be read; rows are counted from one, the head being the first.
    Row { row: usize, error: RowError },
}

/// The change of the book that a row records.
pub open spec fn prl_row_of(
    fields: Seq<Seq<u8>>,
    columns: PRLColumnIndexInfo,
    price_step: Decimal,
    dt_format: Seq<u8>,
) -> Result<ObDiffRow, RowError> {
    if columns.datetime_idx >= fields.len() || columns.order_id_idx >= fields.len()
        || columns.price_idx >= fields.len() || columns.size_idx >= fields.len()
        || columns.buy_sell_flag_idx >= fields.len() {
        Err(RowError::MissingField)
    } else {
        match datetime_of(fields[columns.datetime_idx as int], dt_format) {
            None => Err(RowError::BadDateTime),
            Some(nanoseconds) => match unsigned_of(fields[columns.size_idx as int]) {
                None => Err(RowError::BadSize),
                Some(size) => match direction_of(fields[columns.buy_sell_flag_idx as int]) {
                    None => Err(RowError::BadDirection),
                    Some(direction) => match price_of(
                        fields[columns.price_idx as int],
                        price_step,
                    ) {
                        None => Err(RowError::BadPrice),
                        Some(price) => match unsigned_of(fields[columns.order_id_idx as int]) {
                            None => Err(RowError::BadOrderID),
                            Some(order_id) => Ok(
                                (
                                    DateTime(nanoseconds),
                                    Size(size),
                                    direction,
                                    price,
                                    OrderID(order_id),
                                ),
                            ),
                        },
                    },
                },
            },
        }
    }
}

/// The price that a text denotes, in ticks of the given size.
pub open spec fn price_of(text: Seq<u8>, price_step: Decimal) -> Option<Price> {
    match decimal_of(text) {
        Some(value) => ticks_of(value, price_step),
        None => None,
    }
}

/// The trade that a row records.
pub open spec fn trd_row_of(
    fields: Seq<Seq<u8>>,
    columns: TRDColumnIndexInfo,
    dt_format: Seq<u8>,
) -> Result<TradeRow, RowError> {
    if columns.datetime_idx >= fields.len() || columns.order_id_idx >= fields.len()
        || columns.size_idx >= fields.len() || columns.buy_sell_flag_idx >= fields.len() {
        Err(RowError::MissingField)
    } else {
        match datetime_of(fields[columns.datetime_idx as int], dt_format) {
            None => Err(RowError::BadDateTime),
            Some(nanoseconds) => match unsigned_of(fields[columns.size_idx as int]) {
                None => Err(RowError::BadSize),
                Some(size) => match direction_of(fields[columns.buy_sell_flag_idx as int]) {
                    None => Err(RowError::BadDirection),
                    Some(direction) => match unsigned_of(fields[columns.order_id_idx as int]) {
                        None => Err(RowError::BadOrderID),
                        Some(order_id) => Ok(
                            (DateTime(nanoseconds), Size(size), direction, OrderID(order_id)),
                        ),
                    },
                },
            },
        }
    }
}

impl HistoryEvent {
    /// Reads the change of the book that a row records. The time is read by
    /// `chrono`; see `datetime_of`.
    pub fn parse_prl(
        record: &Vec<Vec<u8>>,
        col_idx_info: &PRLColumnIndexInfo,
        price_step: Decimal,
        dt_format: &[u8],
    ) -> (r: Result<ObDiffRow, RowError>)
        ensures
            r == prl_row_of(fields_view(record@), *col_idx_info, price_step, dt_format@),
    {
        let fields = record.len();
        if col_idx_info.datetime_idx >= fields || col_idx_info.order_id_idx >= fields
            || col_idx_info.price_idx >= fields || col_idx_info.size_idx >= fields
            || col_idx_info.buy_sell_flag_idx >= fields {
            return Err(RowError::MissingField);
        }
        let datetime = match parse_datetime(
            record[col_idx_info.datetime_idx].as_slice(),
            dt_format,
        ) {
            None => {
                return Err(RowError::BadDateTime);
            },
            Some(datetime) => datetime,
        };
        let size = match parse_u64(record[col_idx_info.size_idx].as_slice()) {
            None => {
                return Err(RowError::BadSize);
            },
            Some(size) => size,
        };
        let direction = match parse_direction(record[col_idx_info.buy_sell_flag_idx].as_slice()) {
            None => {
                return Err(RowError::BadDirection);
            },
            Some(direction) => direction,
        };
        let price = match Price::from_decimal_str(
            record[col_idx_info.price_idx].as_slice(),
            price_step,
        ) {
            None => {
                return Err(RowError::BadPrice);
            },
            Some(price) => price,
        };
        let order_id = match parse_u64(record[col_idx_info.order_id_idx].as_slice()) {
            None => {
                return Err(RowError::BadOrderID);
            },
            Some(order_id) => order_id,
        };
        Ok((datetime, Size(size), direction, price, OrderID(order_id)))
    }

    /// Reads the trade that a row records. The time is read by `chrono`; see `datetime_of`.
    pub fn parse_trd(
        record: &Vec<Vec<u8>>,
        col_idx_info: &TRDColumnIndexInfo,
        dt_format: &[u8],
    ) -> (r: Result<TradeRow, RowError>)
        ensures
            r == trd_row_of(fields_view(record@), *col_idx_info, dt_format@),
    {
        let fields = record.len();
        if col_idx_info.datetime_idx >= fields || col_idx_info.order_id_idx >= fields
            || col_idx_info.size_idx >= fields || col_idx_info.buy_sell_flag_idx >= fields {
            return Err(RowError::MissingField);
        }
        let datetime = match parse_datetime(
            record[col_idx_info.datetime_idx].as_slice(),
            dt_format,
        ) {
            None => {
                return Err(RowError::BadDateTime);
            },
            Some(datetime) => datetime,
        };
        let size = match parse_u64(record[col_idx_info.size_idx].as_slice()) {
            None => {
                return Err(RowError::BadSize);
            },
            Some(size) => size,
        };
        let direction = match parse_direction(record[col_idx_info.buy_sell_flag_idx].as_slice()) {
            None => {
                return Err(RowError::BadDirection);
            },
            Some(direction) => direction,
        };
        let order_id = match parse_u64(record[col_idx_info.order_id_idx].as_slice()) {
            None => {
                return Err(RowError::BadOrderID);
            },
            Some(order_id) => order_id,
        };
        Ok((datetime, Size(size), direction, OrderID(order_id)))
    }
}

/// The changes of the book that the first `upto` rows of a table record, the
/// head not counted; the first row that cannot be read, where there is one.
pub open spec fn prl_rows_upto(
    table: Seq<Seq<Seq<u8>>>,
    columns: PRLColumnIndexInfo,
    price_step: Decimal,
    dt_format: Seq<u8>,
    upto: nat,
) -> Result<Seq<ObDiffRow>, HistoryError>
    decreases upto,
{
    if upto <= 1 {
        Ok(Seq::empty())
    } else {
        match prl_rows_upto(table, columns, price_step, dt_format, (upto - 1) as nat) {
            Err(error) => Err(error),
            Ok(rows) => match prl_row_of(table[upto - 1], columns, price_step, dt_format) {
                Ok(row) => Ok(rows.push(row)),
                Err(error) => Err(HistoryError::Row { row: upto as usize, error }),
            },
        }
    }
}

/// The changes of the book that a table records.
pub open spec fn ob_diffs_of(
    table: Seq<Seq<Seq<u8>>>,
    names: ColumnNamesView,
    price_step: Decimal,
    dt_format: Seq<u8>,
) -> Result<Seq<ObDiffRow>, HistoryError> {
    if table.len() == 0 {
        Err(HistoryError::NoHeader)
    } else {
        match prl_columns(table[0], names) {
            Err(error) => Err(HistoryError::Columns(error)),
            Ok(columns) => prl_rows_upto(table, columns, price_step, dt_format, table.len()),
        }
    }
}

/// The trades that the first `upto` rows of a table record, the head not
/// counted; the first row that cannot be read, where there is one.
pub open spec fn trd_rows_upto(
    table: Seq<Seq<Seq<u8>>>,
    columns: TRDColumnIndexInfo,
    dt_format: Seq<u8>,
    upto: nat,
) -> Result<Seq<TradeRow>, HistoryError>
    decreases upto,
{
    if upto <= 1 {
        Ok(Seq::empty())
    } else {
        match trd_rows_upto(table, columns, dt_format, (upto - 1) as nat) {
            Err(error) => Err(error),
            Ok(rows) => match trd_row_of(table[upto - 1], columns, dt_format) {
                Ok(row) => Ok(rows.push(row)),
                Err(error) => Err(HistoryError::Row { row: upto as usize, error }),
            },
        }
    }
}

/// The trades that a table records.
pub open spec fn trades_of(table: Seq<Seq<Seq<u8>>>, names: ColumnNamesView, dt_format: Seq<u8>) -> Result<
    Seq<TradeRow>,
    HistoryError,
> {
    if table.len() == 0 {
        Err(HistoryError::NoHeader)
    } else {
        match trd_columns(table[0], names) {
            Err(error) => Err(HistoryError::Columns(error)),
            Ok(columns) => trd_rows_upto(table, columns, dt_format, table.len()),
        }
    }
}

/// Whether what was read is what the model says.
pub open spec fn read_as<Row>(read: Result<Vec<Row>, HistoryError>, said: Result<
    Seq<Row>,
    HistoryError,
>) -> bool {
    match read {
        Ok(rows) => said == Ok::<Seq<Row>, HistoryError>(rows@),
        Err(error) => said == Err::<Seq<Row>, HistoryError>(error),
    }
}

/// Reads the changes of the book from the rows of a table, the first row being its head.
pub fn ob_diffs_from_records(
    records: &Vec<Vec<Vec<u8>>>,
    names: &ColumnNames,
    price_step: Decimal,
    dt_format: &[u8],
) -> (r: Result<Vec<ObDiffRow>, HistoryError>)
    ensures
        read_as(r, ob_diffs_of(table_view(records@), names@, price_step, dt_format@)),
{
    let ghost table = table_view(records@);
    if records.len() == 0 {
        return Err(HistoryError::NoHeader);
    }
    let columns = match PRLColumnIndexInfo::new_for_csv(&records[0], names) {
        Err(error) => {
            return Err(HistoryError::Columns(error));
        },
        Ok(columns) => columns,
    };
    let mut rows: Vec<ObDiffRow> = Vec::new();
    let mut at: usize = 1;
    while at < records.len()
        invariant
            1 <= at <= records.len(),
            table == table_view(records@),
            prl_columns(table[0], names@) == Ok::<PRLColumnIndexInfo, ColumnError>(columns),
            prl_rows_upto(table, columns, price_step, dt_format@, at as nat) == Ok::<
                Seq<ObDiffRow>,
                HistoryError,
            >(rows@),
        decreases records.len() - at,
    {
        match HistoryEvent::parse_prl(&records[at], &columns, price_step, dt_format) {
            Ok(row) => {
                rows.push(row);
            },
            Err(error) => {
                proof {
                    assert(table[at as int] == fields_view(records@[at as int]@));
                    lemma_prl_rows_fail(
                        table,
                        columns,
                        price_step,
                        dt_format@,
                        (at + 1) as nat,
                        table.len(),
                    );
                }
                return Err(HistoryError::Row { row: at + 1, error });
            },
        }
        at = at + 1;
    }
    Ok(rows)
}

/// Rows that cannot be read to some row cannot be read to any later row, for the same reason.
pub proof fn lemma_prl_rows_fail(
    table: Seq<Seq<Seq<u8>>>,
    columns: PRLColumnIndexInfo,
    price_step: Decimal,
    dt_format: Seq<u8>,
    upto: nat,
    later: nat,
)
    requires
        upto <= later,
        prl_rows_upto(table, columns, price_step, dt_format, upto) is Err,
    ensures
        prl_rows_upto(table, columns, price_step, dt_format, later) == prl_rows_upto(
            table,
            columns,
            price_step,
            dt_format,
            upto,
        ),
    decreases later - upto,
{
    if upto < later {
        lemma_prl_rows_fail(table, columns, price_step, dt_format, upto, (later - 1) as nat);
    }
}

/// Reads the trades from the rows of a table, the first row being its head.
pub fn trades_from_records(records: &Vec<Vec<Vec<u8>>>, names: &ColumnNames, dt_format: &[u8]) -> (r:
    Result<Vec<TradeRow>, HistoryError>)
    ensures
        read_as(r, trades_of(table_view(records@), names@, dt_format@)),
{
    let ghost table = table_view(records@);
    if records.len() == 0 {
        return Err(HistoryError::NoHeader);
    }
    let columns = match TRDColumnIndexInfo::new_for_csv(&records[0], names) {
        Err(error) => {
            return Err(HistoryError::Columns(error));
        },
        Ok(columns) => columns,
    };
    let mut rows: Vec<TradeRow> = Vec::new();
    let mut at: usize = 1;
    while at < records.len()
        invariant
            1 <= at <= records.len(),
            table == table_view(records@),
            trd_columns(table[0], names@) == Ok::<TRDColumnIndexInfo, ColumnError>(columns),
            trd_rows_upto(table, columns, dt_format@, at as nat) == Ok::<
                Seq<TradeRow>,
                HistoryError,
            >(rows@),
        decreases records.len() - at,
    {
        match HistoryEvent::parse_trd(&records[at], &columns, dt_format) {
            Ok(row) => {
                rows.push(row);
            },
            Err(error) => {
                proof {
                    assert(table[at as int] == fields_view(records@[at as int]@));
                    lemma_trd_rows_fail(table, columns, dt_format@, (at + 1) as nat, table.len());
                }
                return Err(HistoryError::Row { row: at + 1, error });
            },
        }
        at = at + 1;
    }
    Ok(rows)
}

/// Rows that cannot be read to some row cannot be read to any later row, for the same reason.
pub proof fn lemma_trd_rows_fail(
    table: Seq<Seq<Seq<u8>>>,
    columns: TRDColumnIndexInfo,
    dt_format: Seq<u8>,
    upto: nat,
    later: nat,
)
    requires
        upto <= later,
        trd_rows_upto(table, columns, dt_format, upto) is Err,
    ensures
        trd_rows_upto(table, columns, dt_format, later) == trd_rows_upto(
            table,
            columns,
            dt_format,
            upto,
        ),
    decreases later - upto,
{
    if upto < later {
        lemma_trd_rows_fail(table, columns, dt_format, upto, (later - 1) as nat);
    }
}

/// Reads the changes of the book from the text of a record. The text is
/// split by the `csv` crate; see `csv_table`.
pub fn read_ob_diffs(
    content: &[u8],
    sep: u8,
    names: &ColumnNames,
    price_step: Decimal,
    dt_format: &[u8],
) -> (r: Result<Vec<ObDiffRow>, HistoryError>)
    ensures
        match csv_table(content@, sep) {
            Some(table) => read_as(r, ob_diffs_of(table, names@, price_step, dt_format@)),
            None => r matches Err(HistoryError::MalformedCsv { .. }),
        },
{
    match csv_records(content, sep) {
        Ok(records) => ob_diffs_from_records(&records, names, price_step, dt_format),
        Err(error) => Err(HistoryError::MalformedCsv { record: csv_error_record(&error) }),
    }
}

/// Reads the trades from the text of a record. The text is split by the
/// `csv` crate; see `csv_table`.
pub fn read_trades(content: &[u8], sep: u8, names: &ColumnNames, dt_format: &[u8]) -> (r: Result<
    Vec<TradeRow>,
    HistoryError,
>)
    ensures
        match csv_table(content@, sep) {
            Some(table) => read_as(r, trades_of(table, names@, dt_format@)),
            None => r matches Err(HistoryError::MalformedCsv { .. }),
        },
{
    match csv_records(content, sep) {
        Ok(records) => trades_from_records(&records, names, dt_format),
        Err(error) => Err(HistoryError::MalformedCsv { record: csv_error_record(&error) }),
    }
}

/// A record that cannot be read, with its place among the records given.
#[derive(Debug, PartialEq, Eq, Structural, Clone, Copy)]
pub struct FileError {
    /// The place of the record, counted from zero.
    pub file: usize,
    /// What is wrong with it.
    pub error: HistoryError,
}

/// The texts of the records as contracts see them.
pub open spec fn texts_view(files: Seq<Vec<u8>>) -> Seq<Seq<u8>> {
    files.map_values(|file: Vec<u8>| file@)
}

/// The changes of the book that records hold, one record after the other;
/// the first record that cannot be read, where there is one.
pub open spec fn ob_diffs_of_files(
    files: Seq<Seq<u8>>,
    sep: u8,
    names: ColumnNamesView,
    price_step: Decimal,
    dt_format: Seq<u8>,
) -> Result<Seq<ObDiffRow>, FileError>
    decreases files.len(),
{
    if files.len() == 0 {
        Ok(Seq::empty())
    } else {
        match ob_diffs_of_files(files.drop_last(), sep, names, price_step, dt_format) {
            Err(error) => Err(error),
            Ok(rows) => match csv_table(files.last(), sep) {
                None => Err(
                    FileError {
                        file: (files.len() - 1) as usize,
                        error: HistoryError::MalformedCsv { record: None },
                    },
                ),
                Some(table) => match ob_diffs_of(table, names, price_step, dt_format) {
                    Ok(more) => Ok(rows + more),
                    Err(error) => Err(FileError { file: (files.len() - 1) as usize, error }),
                },
            },
        }
    }
}

/// Whether two errors are the same but for what the `csv` crate says of the
/// place at which a text is no table.
pub open spec fn same_failure(found: FileError, said: FileError) -> bool {
    found.file == said.file && match said.error {
        HistoryError::MalformedCsv { .. } => found.error is MalformedCsv,
        _ => found.error == said.error,
    }
}

/// Reads the changes of the book from the texts of records, one record after
/// the other, and stops at the first that cannot be read.
pub fn read_ob_diff_files(
    files: &Vec<Vec<u8>>,
    sep: u8,
    names: &ColumnNames,
    price_step: Decimal,
    dt_format: &[u8],
) -> (r: Result<Vec<ObDiffRow>, FileError>)
    ensures
        match ob_diffs_of_files(texts_view(files@), sep, names@, price_step, dt_format@) {
            Ok(rows) => r matches Ok(read) && read@ == rows,
            Err(said) => r matches Err(found) && same_failure(found, said),
        },
{
    let ghost texts = texts_view(files@);
    let mut rows: Vec<ObDiffRow> = Vec::new();
    let mut at: usize = 0;
    proof {
        assert(texts.take(0) =~= Seq::<Seq<u8>>::empty());
    }
    while at < files.len()
        invariant
            at <= files.len(),
            texts == texts_view(files@),
            ob_diffs_of_files(texts.take(at as int), sep, names@, price_step, dt_format@) == Ok::<
                Seq<ObDiffRow>,
                FileError,
            >(rows@),
        decreases files.len() - at,
    {
        proof {
            assert(texts.take(at + 1).drop_last() =~= texts.take(at as int));
            assert(texts.take(at + 1).last() == files@[at as int]@);
        }
        match read_ob_diffs(files[at].as_slice(), sep, names, price_step, dt_format) {
            Ok(more) => {
                let mut more = more;
                rows.append(&mut more);
            },
            Err(error) => {
                proof {
                    lemma_ob_diff_files_fail(
                        texts,
                        sep,
                        names@,
                        price_step,
                        dt_format@,
                        at + 1,
                    );
                }
                return Err(FileError { file: at, error });
            },
        }
        at = at + 1;
    }
    proof {
        assert(texts.take(at as int) =~= texts);
    }
    Ok(rows)
}

/// Records that cannot be read to some record cannot be read as a whole, for the same reason.
pub proof fn lemma_ob_diff_files_fail(
    files: Seq<Seq<u8>>,
    sep: u8,
    names: ColumnNamesView,
    price_step: Decimal,
    dt_format: Seq<u8>,
    read: int,
)
    requires
        0 <= read <= files.len(),
        ob_diffs_of_files(files.take(read), sep, names, price_step, dt_format) is Err,
    ensures
        ob_diffs_of_files(files, sep, names, price_step, dt_format) == ob_diffs_of_files(
            files.take(read),
            sep,
            names,
            price_step,
            dt_format,
        ),
    decreases files.len() - read,
{
    if read == files.len() {
        assert(files.take(read) =~= files);
    } else {
        assert(files.take(read + 1).drop_last() =~= files.take(read));
        lemma_ob_diff_files_fail(files, sep, names, price_step, dt_format, read + 1);
    }
}

/// The trades that records hold, one record after the other; the first
/// record that cannot be read, where there is one.
pub open spec fn trades_of_files(
    files: Seq<Seq<u8>>,
    sep: u8,
    names: ColumnNamesView,
    dt_format: Seq<u8>,
) -> Result<Seq<TradeRow>, FileError>
    decreases files.len(),
{
    if files.len() == 0 {
        Ok(Seq::empty())
    } else {
        match trades_of_files(files.drop_last(), sep, names, dt_format) {
            Err(error) => Err(error),
            Ok(rows) => match csv_table(files.last(), sep) {
                None => Err(
                    FileError {
                        file: (files.len() - 1) as usize,
                        error: HistoryError::MalformedCsv { record: None },
                    },
                ),
                Some(table) => match trades_of(table, names, dt_format) {
                    Ok(more) => Ok(rows + more),
                    Err(error) => Err(FileError { file: (files.len() - 1) as usize, error }),
                },
            },
        }
    }
}

/// Reads the trades from the texts of records, one record after the other,
/// and stops at the first that cannot be read.
pub fn read_trade_files(files: &Vec<Vec<u8>>, sep: u8, names: &ColumnNames, dt_format: &[u8]) -> (r:
    Result<Vec<TradeRow>, FileError>)
    ensures
        match trades_of_files(texts_view(files@), sep, names@, dt_format@) {
            Ok(rows) => r matches Ok(read) && read@ == rows,
            Err(said) => r matches Err(found) && same_failure(found, said),
        },
{
    let ghost texts = texts_view(files@);
    let mut rows: Vec<TradeRow> = Vec::new();
    let mut at: usize = 0;
    proof {
        assert(texts.take(0) =~= Seq::<Seq<u8>>::empty());
    }
    while at < files.len()
        invariant
            at <= files.len(),
            texts == texts_view(files@),
            trades_of_files(texts.take(at as int), sep, names@, dt_format@) == Ok::<
                Seq<TradeRow>,
                FileError,
            >(rows@),
        decreases files.len() - at,
    {
        proof {
            assert(texts.take(at + 1).drop_last() =~= texts.take(at as int));
            assert(texts.take(at + 1).last() == files@[at as int]@);
        }
        match read_trades(files[at].as_slice(), sep, names, dt_format) {
            Ok(more) => {
                let mut more = more;
                rows.append(&mut more);
            },
            Err(error) => {
                proof {
                    lemma_trade_files_fail(texts, sep, names@, dt_format@, at + 1);
                }
                return Err(FileError { file: at, error });
            },
        }
        at = at + 1;
    }
    proof {
        assert(texts.take(at as int) =~= texts);
    }
    Ok(rows)
}

/// Records that cannot be read to some record cannot be read as a whole, for the same reason.
pub proof fn lemma_trade_files_fail(
    files: Seq<Seq<u8>>,
    sep: u8,
    names: ColumnNamesView,
    dt_format: Seq<u8>,
    read: int,
)
    requires
        0 <= read <= files.len(),
        trades_of_files(files.take(read), sep, names, dt_format) is Err,
    ensures
        trades_of_files(files, sep, names, dt_format) == trades_of_files(
            files.take(read),
            sep,
            names,
            dt_format,
        ),
    decreases files.len() - read,
{
    if read == files.len() {
        assert(files.take(read) =~= files);
    } else {
        assert(files.take(read + 1).drop_last() =~= files.take(read));
        lemma_trade_files_fail(files, sep, names, dt_format, read + 1);
    }
}

} // verus!
