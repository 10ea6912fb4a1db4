use tick_columnar::batch::{BatchError, Column, ColumnBatch, DataType, Field, Schema};

fn sample() -> ColumnBatch {
    ColumnBatch::try_new(vec![
        Column::UInt64(vec![1, 2, 3, 4, 5]),
        Column::Boolean(vec![true, false, false, true, true]),
        Column::Utf8(vec!["a".to_string(), "b".to_string(), "c".to_string(), "d".to_string(), "e".to_string()]),
    ])
    .unwrap()
}

fn rows_u64(b: &ColumnBatch) -> Vec<u64> {
    match &b.columns[0] {
        Column::UInt64(v) => v.clone(),
        _ => panic!("first column is not UInt64"),
    }
}

#[test]
fn columns_of_different_lengths_are_refused() {
    let r = ColumnBatch::try_new(vec![Column::Int64(vec![1, 2]), Column::Boolean(vec![true])]);
    assert_eq!(r.unwrap_err(), BatchError::ShapeMismatch);
    assert_eq!(ColumnBatch::try_new(vec![]).unwrap().num_rows(), 0);
}

#[test]
fn split_into_row_groups_in_order() {
    let b = sample();
    let parts = b.split_rows(2);
    assert_eq!(parts.len(), 3);
    assert_eq!(rows_u64(&parts[0]), vec![1, 2]);
    assert_eq!(rows_u64(&parts[1]), vec![3, 4]);
    assert_eq!(rows_u64(&parts[2]), vec![5]);
    assert_eq!(b.split_rows(5).len(), 1);
    assert_eq!(b.split_rows(100).len(), 1);
    assert_eq!(b.split_rows(1).len(), 5);
}

#[test]
fn split_then_concat_gives_the_batch() {
    let b = sample();
    for k in 1..8 {
        let parts = b.split_rows(k);
        let joined = ColumnBatch::concat(&parts).unwrap();
        assert_eq!(format!("{:?}", joined), format!("{:?}", b));
    }
}

#[test]
fn empty_batch_splits_into_one_empty_group() {
    let b = ColumnBatch::try_new(vec![Column::Int64(vec![]), Column::Utf8(vec![])]).unwrap();
    let parts = b.split_rows(3);
    assert_eq!(parts.len(), 1);
    assert_eq!(parts[0].num_rows(), 0);
    assert_eq!(parts[0].columns.len(), 2);
}

#[test]
fn concat_refuses_mismatched_batches() {
    assert_eq!(ColumnBatch::concat(&vec![]).unwrap_err(), BatchError::FormatError);
    let a = ColumnBatch::try_new(vec![Column::Int64(vec![1])]).unwrap();
    let b = ColumnBatch::try_new(vec![Column::UInt64(vec![1])]).unwrap();
    assert_eq!(ColumnBatch::concat(&vec![a, b]).unwrap_err(), BatchError::FormatError);
    let c = ColumnBatch::try_new(vec![Column::Int64(vec![1])]).unwrap();
    let d = ColumnBatch::try_new(vec![Column::Int64(vec![1]), Column::Int64(vec![2])]).unwrap();
    assert_eq!(ColumnBatch::concat(&vec![c, d]).unwrap_err(), BatchError::FormatError);
}

#[test]
fn schema_checks_column_types() {
    let schema = Schema::from_fields(vec![
        Field::new("a", DataType::UInt64, false),
        Field::new("b", DataType::Boolean, false),
        Field::new("d", DataType::Utf8, false),
    ]);
    assert_eq!(schema.check_batch(&sample()), Ok(()));
    let wrong = ColumnBatch::try_new(vec![
        Column::Int64(vec![1]),
        Column::Boolean(vec![true]),
        Column::Utf8(vec!["x".to_string()]),
    ])
    .unwrap();
    assert_eq!(schema.check_batch(&wrong), Err(BatchError::EncodingError));
    let short = ColumnBatch::try_new(vec![Column::UInt64(vec![1])]).unwrap();
    assert_eq!(schema.check_batch(&short), Err(BatchError::EncodingError));
}

#[test]
fn metadata_latest_entry_wins() {
    let mut schema = Schema::from_fields(vec![]);
    assert_eq!(schema.metadata_value("price_precision"), None);
    schema.insert_metadata("price_precision", "5".to_string());
    schema.insert_metadata("qty_precision", "0".to_string());
    assert_eq!(schema.metadata_value("price_precision"), Some("5".to_string()));
    schema.insert_metadata("price_precision", "7".to_string());
    assert_eq!(schema.metadata_value("price_precision"), Some("7".to_string()));
    assert_eq!(schema.metadata_value("instrument_id"), None);
}

#[test]
fn column_slice_and_concat() {
    let c = Column::Utf8(vec!["x".to_string(), "y".to_string(), "z".to_string()]);
    let s = c.slice(1, 3);
    assert_eq!(s.len(), 2);
    assert_eq!(s.data_type(), DataType::Utf8);
    let j = s.concat(&c.slice(0, 1));
    match j {
        Column::Utf8(v) => assert_eq!(v, vec!["y".to_string(), "z".to_string(), "x".to_string()]),
        _ => panic!("wrong column type"),
    }
}
