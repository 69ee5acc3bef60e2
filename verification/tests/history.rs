use exchange_backtester::history::parser::interface::EventProcessor;
use exchange_backtester::history::parser::{
    first_ob_diff_out_of_order, first_trade_out_of_order, HistoryParser, HistoryStream,
    ObDiffRow, OutOfOrder, TradeRow,
};
use exchange_backtester::history::reader::{
    ob_diffs_from_records, read_ob_diff_files, read_ob_diffs, read_trade_files, read_trades,
    trades_from_records, FileError, HistoryError, RowError,
};
use exchange_backtester::history::text::{
    parse_decimal, parse_direction, parse_u64, power_of_ten, read_digits, same_text, Decimal,
};
use exchange_backtester::history::types::{
    find_column, find_columns, Column, ColumnError, ColumnNames, ColumnSlots, HistoryEvent,
    HistoryEventBody, PRLColumnIndexInfo, TRDColumnIndexInfo,
};
use exchange_backtester::types::{DateTime, Direction, OrderID, Price, Size};

fn ob_diff(at: i64, id: u64) -> ObDiffRow {
    (DateTime(at), Size(id + 1), Direction::Buy, Price(100 + id as i64), OrderID(id))
}

fn trade(at: i64, id: u64) -> TradeRow {
    (DateTime(at), Size(id + 2), Direction::Sell, OrderID(id))
}

fn prl(at: i64, id: u64) -> HistoryEvent {
    HistoryEvent {
        datetime: DateTime(at),
        event: HistoryEventBody::PRL(Size(id + 1), Direction::Buy, Price(100 + id as i64), OrderID(id)),
    }
}

fn trd(at: i64, id: u64) -> HistoryEvent {
    HistoryEvent { datetime: DateTime(at), event: HistoryEventBody::TRD(Size(id + 2), Direction::Sell) }
}

fn all_of(parser: &mut HistoryParser) -> Vec<HistoryEvent> {
    let mut events = Vec::new();
    while let Some(event) = parser.yield_next_event() {
        events.push(event);
    }
    events
}

fn names() -> ColumnNames {
    ColumnNames {
        datetime: b"Timestamp".to_vec(),
        order_id: b"ORDER_ID".to_vec(),
        price: b"ORDER_PRICE".to_vec(),
        size: b"ORDER_SIZE".to_vec(),
        bs_flag: b"BUY_SELL_FLAG".to_vec(),
    }
}

fn row(fields: &[&str]) -> Vec<Vec<u8>> {
    fields.iter().map(|field| field.as_bytes().to_vec()).collect()
}

fn tick() -> Decimal {
    Decimal { negative: false, digits: 25, scale: 4 }
}

const FORMAT: &[u8] = b"%Y-%m-%d %H:%M:%S%.f";

#[test]
fn merged_stream_is_in_the_order_of_its_times() {
    let mut parser = HistoryParser::new(
        vec![ob_diff(1, 10), ob_diff(4, 11), ob_diff(4, 12), ob_diff(9, 13)],
        vec![trade(2, 20), trade(3, 21), trade(8, 22), trade(11, 23)],
    )
    .unwrap();
    assert_eq!(
        all_of(&mut parser),
        vec![
            prl(1, 10),
            trd(2, 20),
            trd(3, 21),
            prl(4, 11),
            prl(4, 12),
            trd(8, 22),
            prl(9, 13),
            trd(11, 23)
        ]
    );
    assert_eq!(parser.yield_next_event(), None);
}

#[test]
fn change_of_the_book_goes_before_a_trade_of_the_same_instant_unless_the_trade_has_the_smaller_identifier(
) {
    let mut larger = HistoryParser::new(vec![ob_diff(5, 10)], vec![trade(5, 11)]).unwrap();
    assert_eq!(all_of(&mut larger), vec![prl(5, 10), trd(5, 11)]);
    let mut equal = HistoryParser::new(vec![ob_diff(5, 10)], vec![trade(5, 10)]).unwrap();
    assert_eq!(all_of(&mut equal), vec![prl(5, 10), trd(5, 10)]);
    let mut smaller = HistoryParser::new(vec![ob_diff(5, 10)], vec![trade(5, 9)]).unwrap();
    assert_eq!(all_of(&mut smaller), vec![trd(5, 9), prl(5, 10)]);
}

#[test]
fn stream_of_one_record_or_none() {
    let mut only_changes = HistoryParser::new(vec![ob_diff(1, 1), ob_diff(1, 2)], vec![]).unwrap();
    assert_eq!(all_of(&mut only_changes), vec![prl(1, 1), prl(1, 2)]);
    let mut only_trades = HistoryParser::new(vec![], vec![trade(7, 1)]).unwrap();
    assert_eq!(all_of(&mut only_trades), vec![trd(7, 1)]);
    let mut nothing = HistoryParser::new(vec![], vec![]).unwrap();
    assert_eq!(nothing.yield_next_event(), None);
}

#[test]
fn record_out_of_order_is_refused_with_the_place_of_the_row() {
    let refused = HistoryParser::new(vec![ob_diff(1, 1), ob_diff(3, 2), ob_diff(2, 3)], vec![]);
    assert_eq!(refused.err(), Some(OutOfOrder { stream: HistoryStream::ObDiff, row: 2 }));
    let refused = HistoryParser::new(vec![ob_diff(1, 1)], vec![trade(5, 1), trade(4, 2), trade(3, 3)]);
    assert_eq!(refused.err(), Some(OutOfOrder { stream: HistoryStream::Trade, row: 1 }));
    let refused = HistoryParser::new(vec![ob_diff(2, 1), ob_diff(1, 2)], vec![trade(5, 1), trade(4, 2)]);
    assert_eq!(refused.err(), Some(OutOfOrder { stream: HistoryStream::ObDiff, row: 1 }));
    assert_eq!(first_ob_diff_out_of_order(&vec![ob_diff(1, 1), ob_diff(1, 2)]), None);
    assert_eq!(first_ob_diff_out_of_order(&vec![]), None);
    assert_eq!(first_trade_out_of_order(&vec![trade(1, 1), trade(0, 2)]), Some(1));
}

#[test]
fn whole_numbers_are_read_from_digits() {
    assert_eq!(parse_u64(b"0"), Some(0));
    assert_eq!(parse_u64(b"007"), Some(7));
    assert_eq!(parse_u64(b"+15"), Some(15));
    assert_eq!(parse_u64(b"18446744073709551615"), Some(u64::MAX));
    assert_eq!(parse_u64(b"18446744073709551616"), None);
    assert_eq!(parse_u64(b"99999999999999999999"), None);
    assert_eq!(parse_u64(b""), None);
    assert_eq!(parse_u64(b"+"), None);
    assert_eq!(parse_u64(b"-1"), None);
    assert_eq!(parse_u64(b"1 "), None);
    assert_eq!(parse_u64(b"1.0"), None);
    assert_eq!(parse_u64(b"12a"), None);
    assert_eq!(read_digits(b"ab123cd", 2, 5, 0, 1000), Some(123));
    assert_eq!(read_digits(b"ab123cd", 2, 5, 9, 10000), Some(9123));
    assert_eq!(read_digits(b"ab123cd", 2, 5, 0, 122), None);
    assert_eq!(read_digits(b"ab123cd", 2, 6, 0, 1000), None);
    assert_eq!(read_digits(b"ab123cd", 3, 3, 4, 1000), Some(4));
}

#[test]
fn flags_tell_buyers_from_sellers() {
    for flag in ["0", "B", "b", "False", "false"] {
        assert_eq!(parse_direction(flag.as_bytes()), Some(Direction::Buy));
    }
    for flag in ["1", "S", "s", "True", "true"] {
        assert_eq!(parse_direction(flag.as_bytes()), Some(Direction::Sell));
    }
    for flag in ["", "2", "buy", "FALSE", "TRUE", "Sell", "b ", "00"] {
        assert_eq!(parse_direction(flag.as_bytes()), None);
    }
    assert!(same_text(b"abc", b"abc"));
    assert!(!same_text(b"abc", b"abd"));
    assert!(!same_text(b"abc", b"ab"));
    assert!(same_text(b"", b""));
}

#[test]
fn decimal_numbers_are_read_exactly() {
    let decimal = |negative, digits, scale| Some(Decimal { negative, digits, scale });
    assert_eq!(parse_decimal(b"73.3225"), decimal(false, 733225, 4));
    assert_eq!(parse_decimal(b"-0.5"), decimal(true, 5, 1));
    assert_eq!(parse_decimal(b"+12"), decimal(false, 12, 0));
    assert_eq!(parse_decimal(b"12."), decimal(false, 12, 0));
    assert_eq!(parse_decimal(b".5"), decimal(false, 5, 1));
    assert_eq!(parse_decimal(b"0.0025"), decimal(false, 25, 4));
    assert_eq!(parse_decimal(b"1.500"), decimal(false, 1500, 3));
    assert_eq!(parse_decimal(b"999999999999999999"), decimal(false, 999_999_999_999_999_999, 0));
    assert_eq!(parse_decimal(b"0.999999999999999999"), decimal(false, 999_999_999_999_999_999, 18));
    assert_eq!(parse_decimal(b"1000000000000000000"), None);
    assert_eq!(parse_decimal(b"0.0000000000000000001"), None);
    for text in ["", ".", "-", "+.", "1.2.3", "1e5", "abc", "1,5", " 1", "--1"] {
        assert_eq!(parse_decimal(text.as_bytes()), None);
    }
    assert_eq!(power_of_ten(0), 1);
    assert_eq!(power_of_ten(4), 10_000);
    assert_eq!(power_of_ten(18), 1_000_000_000_000_000_000);
}

#[test]
fn prices_are_whole_numbers_of_ticks() {
    assert_eq!(Price::from_decimal_str(b"73.3225", tick()), Some(Price(29329)));
    assert_eq!(Price::from_decimal_str(b"73.32250", tick()), Some(Price(29329)));
    assert_eq!(Price::from_decimal_str(b"0", tick()), Some(Price(0)));
    assert_eq!(Price::from_decimal_str(b"-0.0050", tick()), Some(Price(-2)));
    assert_eq!(Price::from_decimal_str(b"73.3226", tick()), None);
    assert_eq!(Price::from_decimal_str(b"73.32250000000001", tick()), None);
    assert_eq!(Price::from_decimal_str(b"seventy", tick()), None);
    let whole = Decimal { negative: false, digits: 1, scale: 0 };
    assert_eq!(Price::from_decimal_str(b"42", whole), Some(Price(42)));
    assert_eq!(Price::from_decimal_str(b"42.5", whole), None);
    let five = Decimal { negative: false, digits: 5, scale: 0 };
    assert_eq!(Price::from_decimal_str(b"100", five), Some(Price(20)));
    let no_step = Decimal { negative: false, digits: 0, scale: 0 };
    assert_eq!(Price::from_decimal_str(b"1", no_step), None);
    let negative_step = Decimal { negative: true, digits: 1, scale: 0 };
    assert_eq!(Price::from_decimal_str(b"1", negative_step), None);
    let fine = Decimal { negative: false, digits: 1, scale: 18 };
    let large = Decimal { negative: false, digits: 999_999_999_999_999_999, scale: 0 };
    assert_eq!(Price::from_decimal(large, fine), None);
    let nine = Decimal { negative: false, digits: 9_223_372_036_854_775_807, scale: 0 };
    assert_eq!(Price::from_decimal(nine, whole), Some(Price(i64::MAX)));
    let ten = Decimal { negative: false, digits: 9_223_372_036_854_775_808, scale: 0 };
    assert_eq!(Price::from_decimal(ten, whole), None);
    let deep = Decimal { negative: false, digits: 1, scale: 19 };
    assert_eq!(Price::from_decimal(deep, whole), None);
}

#[test]
fn columns_are_found_by_their_names() {
    let head = row(&["ORDER_PRICE", "other", "Timestamp", "BUY_SELL_FLAG", "ORDER_ID", "ORDER_SIZE"]);
    assert_eq!(
        PRLColumnIndexInfo::new_for_csv(&head, &names()),
        Ok(PRLColumnIndexInfo {
            price_idx: 0,
            size_idx: 5,
            datetime_idx: 2,
            buy_sell_flag_idx: 3,
            order_id_idx: 4,
        })
    );
    assert_eq!(
        TRDColumnIndexInfo::new_for_csv(&head, &names()),
        Ok(TRDColumnIndexInfo { size_idx: 5, datetime_idx: 2, buy_sell_flag_idx: 3, order_id_idx: 4 })
    );
    assert_eq!(find_column(b"ORDER_ID", &names(), true), Some(Column::OrderID));
    assert_eq!(find_column(b"ORDER_PRICE", &names(), true), Some(Column::Price));
    assert_eq!(find_column(b"ORDER_PRICE", &names(), false), None);
    assert_eq!(find_column(b"order_id", &names(), true), None);
    assert_eq!(
        find_columns(&row(&["x", "ORDER_SIZE"]), &names(), true),
        Ok(ColumnSlots { datetime: None, order_id: None, price: None, size: Some(1), bs_flag: None })
    );
}

#[test]
fn duplicate_and_missing_columns_are_named() {
    let twice = row(&["Timestamp", "ORDER_ID", "ORDER_SIZE", "ORDER_ID", "ORDER_SIZE"]);
    assert_eq!(
        PRLColumnIndexInfo::new_for_csv(&twice, &names()),
        Err(ColumnError::Duplicate(Column::OrderID))
    );
    assert_eq!(find_columns(&twice, &names(), false), Err(Column::OrderID));
    let prices = row(&["ORDER_PRICE", "ORDER_PRICE", "Timestamp", "BUY_SELL_FLAG", "ORDER_ID", "ORDER_SIZE"]);
    assert_eq!(
        PRLColumnIndexInfo::new_for_csv(&prices, &names()),
        Err(ColumnError::Duplicate(Column::Price))
    );
    assert!(TRDColumnIndexInfo::new_for_csv(&prices, &names()).is_ok());
    let complete = ["ORDER_PRICE", "ORDER_SIZE", "Timestamp", "BUY_SELL_FLAG", "ORDER_ID"];
    let columns = [Column::Price, Column::Size, Column::DateTime, Column::BuySellFlag, Column::OrderID];
    for (missing, column) in columns.into_iter().enumerate() {
        let kept: Vec<&str> = complete
            .iter()
            .enumerate()
            .filter(|(at, _)| *at != missing)
            .map(|(_, name)| *name)
            .collect();
        let head = row(&kept);
        assert_eq!(
            PRLColumnIndexInfo::new_for_csv(&head, &names()),
            Err(ColumnError::Missing(column))
        );
        if missing > 0 {
            assert_eq!(
                TRDColumnIndexInfo::new_for_csv(&head, &names()),
                Err(ColumnError::Missing(column))
            );
        }
    }
    assert_eq!(
        PRLColumnIndexInfo::new_for_csv(&vec![], &names()),
        Err(ColumnError::Missing(Column::Price))
    );
}

#[test]
fn rows_are_read_field_by_field() {
    let columns = PRLColumnIndexInfo {
        price_idx: 2,
        size_idx: 3,
        datetime_idx: 0,
        buy_sell_flag_idx: 4,
        order_id_idx: 1,
    };
    let good = row(&["1970-01-01 00:00:01.5", "42", "0.0100", "7", "S"]);
    assert_eq!(
        HistoryEvent::parse_prl(&good, &columns, tick(), FORMAT),
        Ok((DateTime(1_500_000_000), Size(7), Direction::Sell, Price(4), OrderID(42)))
    );
    let spoiled = |at: usize, text: &str| {
        let mut fields = row(&["1970-01-01 00:00:01.5", "42", "0.0100", "7", "S"]);
        fields[at] = text.as_bytes().to_vec();
        HistoryEvent::parse_prl(&fields, &columns, tick(), FORMAT)
    };
    assert_eq!(spoiled(0, "yesterday"), Err(RowError::BadDateTime));
    assert_eq!(spoiled(0, "1970-01-01"), Err(RowError::BadDateTime));
    assert_eq!(spoiled(3, "seven"), Err(RowError::BadSize));
    assert_eq!(spoiled(4, "x"), Err(RowError::BadDirection));
    assert_eq!(spoiled(2, "0.0101"), Err(RowError::BadPrice));
    assert_eq!(spoiled(1, "-1"), Err(RowError::BadOrderID));
    let short = row(&["1970-01-01 00:00:01.5", "42", "0.0100", "7"]);
    assert_eq!(
        HistoryEvent::parse_prl(&short, &columns, tick(), FORMAT),
        Err(RowError::MissingField)
    );
    // The first field that cannot be read decides: time, size, flag, price, identifier.
    let all_bad = row(&["?", "?", "?", "?", "?"]);
    assert_eq!(
        HistoryEvent::parse_prl(&all_bad, &columns, tick(), FORMAT),
        Err(RowError::BadDateTime)
    );
    let trades = TRDColumnIndexInfo { size_idx: 3, datetime_idx: 0, buy_sell_flag_idx: 4, order_id_idx: 1 };
    assert_eq!(
        HistoryEvent::parse_trd(&good, &trades, FORMAT),
        Ok((DateTime(1_500_000_000), Size(7), Direction::Sell, OrderID(42)))
    );
    assert_eq!(
        HistoryEvent::parse_trd(&row(&["1970-01-01 00:00:01.5", "42"]), &trades, FORMAT),
        Err(RowError::MissingField)
    );
    assert_eq!(
        HistoryEvent::parse_trd(&row(&["1970-01-01 00:00:01.5", "x", "", "1", "b"]), &trades, FORMAT),
        Err(RowError::BadOrderID)
    );
    assert_eq!(
        HistoryEvent::parse_trd(&row(&["1970-01-01 00:00:01.5", "1", "", "1", "5"]), &trades, FORMAT),
        Err(RowError::BadDirection)
    );
    assert_eq!(
        HistoryEvent::parse_trd(&row(&["1970-01-01 00:00:01.5", "1", "", "", "b"]), &trades, FORMAT),
        Err(RowError::BadSize)
    );
    assert_eq!(
        HistoryEvent::parse_trd(&row(&["noon", "1", "", "1", "b"]), &trades, FORMAT),
        Err(RowError::BadDateTime)
    );
}

#[test]
fn times_are_read_in_the_given_format() {
    let columns = TRDColumnIndexInfo { size_idx: 1, datetime_idx: 0, buy_sell_flag_idx: 1, order_id_idx: 1 };
    let at = |text: &str, format: &str| {
        HistoryEvent::parse_trd(&row(&[text, "1"]), &columns, format.as_bytes()).map(|row| row.0)
    };
    let expected = chrono::NaiveDate::from_ymd_opt(2021, 6, 1)
        .unwrap()
        .and_hms_nano_opt(8, 30, 15, 250_000_000)
        .unwrap()
        .and_utc()
        .timestamp_nanos_opt()
        .unwrap();
    assert_eq!(expected, 1_622_536_215_250_000_000);
    assert_eq!(at("2021-06-01 08:30:15.25", "%Y-%m-%d %H:%M:%S%.f"), Ok(DateTime(expected)));
    assert_eq!(at("01/06/2021 08:30:15.250", "%d/%m/%Y %H:%M:%S%.f"), Ok(DateTime(expected)));
    assert_eq!(at("1969-12-31 23:59:59", "%Y-%m-%d %H:%M:%S"), Ok(DateTime(-1_000_000_000)));
    assert_eq!(at("2021-06-01 08:30:15.25", "%d/%m/%Y %H:%M:%S%.f"), Err(RowError::BadDateTime));
    assert_eq!(at("2021-06-31 08:30:15", "%Y-%m-%d %H:%M:%S"), Err(RowError::BadDateTime));
    assert_eq!(at("1500-01-01 00:00:00", "%Y-%m-%d %H:%M:%S"), Err(RowError::BadDateTime));
    assert_eq!(at("2021-06-01 08:30:15", "%Y-%m-%d %Q"), Err(RowError::BadDateTime));
}

#[test]
fn record_of_changes_is_read_from_text() {
    let text = "Timestamp,ORDER_ID,ORDER_PRICE,ORDER_SIZE,BUY_SELL_FLAG\n\
                1970-01-01 00:00:00.000000001,11,0.0025,5,B\n\
                1970-01-01 00:00:00.000000002,12,\"0.0050\",0,1\n";
    assert_eq!(
        read_ob_diffs(text.as_bytes(), b',', &names(), tick(), FORMAT),
        Ok(vec![
            (DateTime(1), Size(5), Direction::Buy, Price(1), OrderID(11)),
            (DateTime(2), Size(0), Direction::Sell, Price(2), OrderID(12)),
        ])
    );
    let other = text.replace(',', ";");
    assert_eq!(
        read_ob_diffs(other.as_bytes(), b';', &names(), tick(), FORMAT).map(|rows| rows.len()),
        Ok(2)
    );
    assert_eq!(
        read_ob_diffs(other.as_bytes(), b',', &names(), tick(), FORMAT),
        Err(HistoryError::Columns(ColumnError::Missing(Column::Price)))
    );
    let head_only = "ORDER_ID,Timestamp,ORDER_PRICE,ORDER_SIZE,BUY_SELL_FLAG\n";
    assert_eq!(read_ob_diffs(head_only.as_bytes(), b',', &names(), tick(), FORMAT), Ok(vec![]));
}

#[test]
fn record_of_trades_is_read_from_text() {
    let text = "BUY_SELL_FLAG,ORDER_SIZE,Timestamp,ORDER_ID,note\n\
                s,3,1970-01-01 00:00:01,7,first\n\
                b,4,1970-01-01 00:00:02,8,\"second, with a comma\"\n";
    assert_eq!(
        read_trades(text.as_bytes(), b',', &names(), FORMAT),
        Ok(vec![
            (DateTime(1_000_000_000), Size(3), Direction::Sell, OrderID(7)),
            (DateTime(2_000_000_000), Size(4), Direction::Buy, OrderID(8)),
        ])
    );
}

#[test]
fn what_is_wrong_with_a_record_is_said() {
    assert_eq!(
        read_ob_diffs(b"", b',', &names(), tick(), FORMAT),
        Err(HistoryError::NoHeader)
    );
    assert_eq!(read_trades(b"", b',', &names(), FORMAT), Err(HistoryError::NoHeader));
    let uneven = "Timestamp,ORDER_ID,ORDER_SIZE,BUY_SELL_FLAG\n1970-01-01 00:00:01,7,3\n";
    assert!(matches!(
        read_trades(uneven.as_bytes(), b',', &names(), FORMAT),
        Err(HistoryError::MalformedCsv { .. })
    ));
    let not_text: &[u8] = b"Timestamp,ORDER_ID,ORDER_SIZE,BUY_SELL_FLAG\n\xff\xfe,7,3,b\n";
    assert!(matches!(
        read_trades(not_text, b',', &names(), FORMAT),
        Err(HistoryError::MalformedCsv { .. })
    ));
    let twice = "Timestamp,ORDER_ID,ORDER_SIZE,BUY_SELL_FLAG,ORDER_SIZE\n";
    assert_eq!(
        read_trades(twice.as_bytes(), b',', &names(), FORMAT),
        Err(HistoryError::Columns(ColumnError::Duplicate(Column::Size)))
    );
    let bad_row = "Timestamp,ORDER_ID,ORDER_SIZE,BUY_SELL_FLAG\n\
                   1970-01-01 00:00:01,7,3,b\n\
                   1970-01-01 00:00:02,8,three,b\n\
                   1970-01-01 00:00:03,x,3,b\n";
    assert_eq!(
        read_trades(bad_row.as_bytes(), b',', &names(), FORMAT),
        Err(HistoryError::Row { row: 3, error: RowError::BadSize })
    );
    assert_eq!(
        trades_from_records(&vec![], &names(), FORMAT),
        Err(HistoryError::NoHeader)
    );
    assert_eq!(
        ob_diffs_from_records(&vec![row(&["Timestamp"])], &names(), tick(), FORMAT),
        Err(HistoryError::Columns(ColumnError::Missing(Column::Price)))
    );
    let records = vec![
        row(&["Timestamp", "ORDER_ID", "ORDER_PRICE", "ORDER_SIZE", "BUY_SELL_FLAG"]),
        row(&["1970-01-01 00:00:01", "7", "0.0026", "1", "b"]),
    ];
    assert_eq!(
        ob_diffs_from_records(&records, &names(), tick(), FORMAT),
        Err(HistoryError::Row { row: 2, error: RowError::BadPrice })
    );
}

#[test]
fn records_are_read_one_after_the_other() {
    let first = "Timestamp,ORDER_ID,ORDER_SIZE,BUY_SELL_FLAG\n1970-01-01 00:00:01,7,3,b\n";
    let second = "ORDER_ID,Timestamp,BUY_SELL_FLAG,ORDER_SIZE\n8,1970-01-01 00:00:02,s,4\n";
    let empty = "Timestamp,ORDER_ID,ORDER_SIZE,BUY_SELL_FLAG\n";
    let files = vec![first.as_bytes().to_vec(), empty.as_bytes().to_vec(), second.as_bytes().to_vec()];
    assert_eq!(
        read_trade_files(&files, b',', &names(), FORMAT),
        Ok(vec![
            (DateTime(1_000_000_000), Size(3), Direction::Buy, OrderID(7)),
            (DateTime(2_000_000_000), Size(4), Direction::Sell, OrderID(8)),
        ])
    );
    assert_eq!(read_trade_files(&vec![], b',', &names(), FORMAT), Ok(vec![]));
    let spoiled = vec![first.as_bytes().to_vec(), b"nothing\n".to_vec(), second.as_bytes().to_vec()];
    assert_eq!(
        read_trade_files(&spoiled, b',', &names(), FORMAT),
        Err(FileError { file: 1, error: HistoryError::Columns(ColumnError::Missing(Column::Size)) })
    );
    let changes = "Timestamp,ORDER_ID,ORDER_PRICE,ORDER_SIZE,BUY_SELL_FLAG\n\
                   1970-01-01 00:00:01,11,0.0025,5,B\n";
    let files = vec![changes.as_bytes().to_vec(), changes.as_bytes().to_vec()];
    assert_eq!(
        read_ob_diff_files(&files, b',', &names(), tick(), FORMAT).map(|rows| rows.len()),
        Ok(2)
    );
    let files = vec![changes.as_bytes().to_vec(), Vec::new()];
    assert_eq!(
        read_ob_diff_files(&files, b',', &names(), tick(), FORMAT),
        Err(FileError { file: 1, error: HistoryError::NoHeader })
    );
}
