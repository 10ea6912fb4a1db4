use tick_columnar::batch::{Column, ColumnBatch, DataType, Schema};
use tick_columnar::fixed_point::{Price, Quantity};
use tick_columnar::identifiers::InstrumentId;
use tick_columnar::records::{CodecError, DecodeFromChunk, InnerValue, QuoteTick, Value};

fn quote(bid: i64, ask: i64, size: u64, ts: u64) -> QuoteTick {
    QuoteTick {
        instrument_id: InstrumentId::from("EUR/USD.SIM"),
        bid: Price::from_raw(bid, 5),
        ask: Price::from_raw(ask, 5),
        bid_size: Quantity::from_raw(size, 0),
        ask_size: Quantity::from_raw(size + 1, 0),
        ts_event: ts,
        ts_init: ts + 10,
    }
}

fn value(a: u64, b: bool, c: &str) -> Value {
    Value { a, b, d: InnerValue { c: c.to_string() } }
}

fn same_values(x: &[Value], y: &[Value]) -> bool {
    x.len() == y.len()
        && x.iter().zip(y.iter()).all(|(p, q)| p.a == q.a && p.b == q.b && p.d.c == q.d.c)
}

fn same_quotes(x: &[QuoteTick], y: &[QuoteTick]) -> bool {
    x.len() == y.len()
        && x.iter().zip(y.iter()).all(|(p, q)| {
            p.instrument_id == q.instrument_id
                && p.bid == q.bid
                && p.ask == q.ask
                && p.bid_size == q.bid_size
                && p.ask_size == q.ask_size
                && p.ts_event == q.ts_event
                && p.ts_init == q.ts_init
        })
}

#[test]
fn four_values_read_back_in_chunks_of_two() {
    let values = vec![
        value(1, true, "hi"),
        value(2, false, "hola"),
        value(3, false, "bola"),
        value(4, true, "chola"),
    ];
    let (schema, batch) = Value::to_batch(&values);
    assert_eq!(schema.fields.len(), 3);
    assert_eq!(schema.fields[0].data_type, DataType::UInt64);
    assert_eq!(schema.fields[1].data_type, DataType::Boolean);
    assert_eq!(schema.fields[2].data_type, DataType::Utf8);
    let chunks = batch.split_rows(2);
    assert_eq!(chunks.len(), 2);
    let mut all: Vec<Value> = Vec::new();
    for chunk in &chunks {
        let part = Value::from_batch(chunk).unwrap();
        assert_eq!(part.len(), 2);
        all.extend(part);
    }
    assert!(same_values(&all, &values));
}

#[test]
fn values_with_wrong_columns_are_refused() {
    let b = ColumnBatch::try_new(vec![Column::UInt64(vec![1]), Column::Boolean(vec![true])]).unwrap();
    assert_eq!(Value::from_batch(&b).unwrap_err(), CodecError::FormatError);
    let c = ColumnBatch {
        columns: vec![
            Column::UInt64(vec![1, 2]),
            Column::Boolean(vec![true]),
            Column::Utf8(vec!["x".to_string(), "y".to_string()]),
        ],
    };
    assert_eq!(Value::from_batch(&c).unwrap_err(), CodecError::FormatError);
}

#[test]
fn quotes_round_trip_through_columns() {
    let quotes = vec![quote(123450, 123460, 100000, 1), quote(-5, 7, 3, 2), quote(0, 0, 0, 3)];
    let (schema, batch) = QuoteTick::to_batch(&quotes).unwrap();
    assert_eq!(schema.metadata_value("instrument_id"), Some("EUR/USD.SIM".to_string()));
    assert_eq!(schema.metadata_value("price_precision"), Some("5".to_string()));
    assert_eq!(schema.metadata_value("qty_precision"), Some("0".to_string()));
    assert_eq!(batch.num_rows(), 3);
    assert_eq!(batch.columns.len(), 6);
    let back = QuoteTick::from_batch(&schema, &batch).unwrap();
    assert!(same_quotes(&back, &quotes));
}

#[test]
fn quote_batch_decodes_bid_text() {
    let quotes = vec![quote(123450, 123460, 1, 1)];
    let (schema, batch) = QuoteTick::to_batch(&quotes).unwrap();
    let back = QuoteTick::from_batch(&schema, &batch).unwrap();
    assert_eq!(back[0].bid.to_text(), "1.23450");
    assert_eq!(Price::from_text(b"1.23450", 5).unwrap().raw, 123450);
}

#[test]
fn two_digit_precision_round_trips() {
    let mut q = quote(1, 2, 3, 4);
    q.bid.precision = 18;
    q.ask.precision = 18;
    q.bid_size.precision = 12;
    q.ask_size.precision = 12;
    let quotes = vec![q];
    let (schema, batch) = QuoteTick::to_batch(&quotes).unwrap();
    assert_eq!(schema.metadata_value("price_precision"), Some("18".to_string()));
    assert_eq!(schema.metadata_value("qty_precision"), Some("12".to_string()));
    let back = QuoteTick::from_batch(&schema, &batch).unwrap();
    assert!(same_quotes(&back, &quotes));
}

#[test]
fn inconsistent_quotes_are_refused() {
    let mut other = quote(1, 2, 3, 4);
    other.ask.precision = 4;
    let r = QuoteTick::to_batch(&vec![quote(1, 2, 3, 4), other]);
    assert_eq!(r.unwrap_err(), CodecError::EncodingError);
    let mut elsewhere = quote(1, 2, 3, 4);
    elsewhere.instrument_id = InstrumentId::from("GBP/USD.SIM");
    let r = QuoteTick::to_batch(&vec![quote(1, 2, 3, 4), elsewhere]);
    assert_eq!(r.unwrap_err(), CodecError::EncodingError);
}

#[test]
fn missing_or_unreadable_metadata_is_refused() {
    let quotes = vec![quote(1, 2, 3, 4)];
    let (_, batch) = QuoteTick::to_batch(&quotes).unwrap();
    let mut schema = Schema::from_fields(vec![]);
    schema.insert_metadata("instrument_id", "EUR/USD.SIM".to_string());
    schema.insert_metadata("price_precision", "5".to_string());
    assert_eq!(QuoteTick::from_batch(&schema, &batch).unwrap_err(), CodecError::MissingMetadata);
    schema.insert_metadata("qty_precision", "19".to_string());
    assert_eq!(QuoteTick::from_batch(&schema, &batch).unwrap_err(), CodecError::MissingMetadata);
    schema.insert_metadata("qty_precision", "x".to_string());
    assert_eq!(QuoteTick::from_batch(&schema, &batch).unwrap_err(), CodecError::MissingMetadata);
    schema.insert_metadata("qty_precision", "0".to_string());
    assert_eq!(QuoteTick::from_batch(&schema, &batch).unwrap().len(), 1);
}

#[test]
fn quote_columns_of_wrong_shape_are_refused() {
    let quotes = vec![quote(1, 2, 3, 4)];
    let (schema, _) = QuoteTick::to_batch(&quotes).unwrap();
    let wrong_type = ColumnBatch {
        columns: vec![
            Column::UInt64(vec![1]),
            Column::Int64(vec![1]),
            Column::UInt64(vec![1]),
            Column::UInt64(vec![1]),
            Column::UInt64(vec![1]),
            Column::UInt64(vec![1]),
        ],
    };
    assert_eq!(QuoteTick::from_batch(&schema, &wrong_type).unwrap_err(), CodecError::FormatError);
    let ragged = ColumnBatch {
        columns: vec![
            Column::Int64(vec![1]),
            Column::Int64(vec![1]),
            Column::UInt64(vec![1]),
            Column::UInt64(vec![1, 2]),
            Column::UInt64(vec![1]),
            Column::UInt64(vec![1]),
        ],
    };
    assert_eq!(QuoteTick::from_batch(&schema, &ragged).unwrap_err(), CodecError::FormatError);
}

#[test]
fn no_quotes_round_trip() {
    let (schema, batch) = QuoteTick::to_batch(&vec![]).unwrap();
    assert_eq!(batch.num_rows(), 0);
    assert_eq!(batch.columns.len(), 6);
    assert_eq!(schema.metadata_value("instrument_id"), Some(String::new()));
    assert_eq!(schema.metadata_value("price_precision"), Some("0".to_string()));
    assert_eq!(schema.metadata_value("qty_precision"), Some("0".to_string()));
    assert_eq!(QuoteTick::from_batch(&schema, &batch).unwrap().len(), 0);
}

#[test]
fn quote_fields_are_named_in_order_and_not_nullable() {
    let (schema, _) = QuoteTick::to_batch(&vec![quote(1, 2, 3, 4)]).unwrap();
    let names: Vec<&str> = schema.fields.iter().map(|f| f.name.as_str()).collect();
    assert_eq!(names, vec!["bid", "ask", "bid_size", "ask_size", "ts_event", "ts_init"]);
    assert!(schema.fields.iter().all(|f| !f.nullable));
    let (schema, _) = Value::to_batch(&vec![value(1, true, "hi")]);
    let names: Vec<&str> = schema.fields.iter().map(|f| f.name.as_str()).collect();
    assert_eq!(names, vec!["a", "b", "d"]);
    assert!(schema.fields.iter().all(|f| !f.nullable));
}

#[test]
fn sizes_land_in_their_named_columns() {
    let (schema, batch) = QuoteTick::to_batch(&vec![quote(1, 2, 30, 4)]).unwrap();
    let at = |name: &str| schema.fields.iter().position(|f| f.name == name).unwrap();
    match (&batch.columns[at("bid_size")], &batch.columns[at("ask_size")]) {
        (Column::UInt64(b), Column::UInt64(a)) => {
            assert_eq!(b, &vec![30]);
            assert_eq!(a, &vec![31]);
        }
        _ => panic!("size columns are not UInt64"),
    }
}

#[test]
fn decode_capability_matches_from_batch() {
    let quotes = vec![quote(5, 6, 7, 8)];
    let (schema, batch) = QuoteTick::to_batch(&quotes).unwrap();
    let decoded = <QuoteTick as DecodeFromChunk>::decode(&schema, &batch).unwrap();
    assert!(same_quotes(&decoded, &quotes));
    let values = vec![value(9, false, "x")];
    let (schema, batch) = Value::to_batch(&values);
    let decoded = <Value as DecodeFromChunk>::decode(&schema, &batch).unwrap();
    assert!(same_values(&decoded, &values));
}
