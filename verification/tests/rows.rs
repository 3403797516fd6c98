use mooncake_table::row::{
    batch_rows, create_test_schema, row_name, test_row, ColumnType, MoonlinkRow, RowValue, Schema,
};

fn is_int32(value: &RowValue, expected: i32) -> bool {
    matches!(value, RowValue::Int32(v) if *v == expected)
}

fn is_bytes(value: &RowValue, expected: &[u8]) -> bool {
    matches!(value, RowValue::ByteArray(bytes) if bytes.as_slice() == expected)
}

#[test]
fn test_row_holds_id_name_and_age() {
    let row = test_row(7, "Ada", 36);
    assert_eq!(row.values.len(), 3);
    assert!(is_int32(&row.values[0], 7));
    assert!(is_bytes(&row.values[1], b"Ada"));
    assert!(is_int32(&row.values[2], 36));
    assert_eq!(row.id(), Some(7));
}

#[test]
fn test_row_keeps_utf8_bytes_of_the_name() {
    let row = test_row(1, "é", 2);
    assert!(is_bytes(&row.values[1], &[0xC3, 0xA9]));
}

#[test]
fn row_id_is_none_without_leading_int32() {
    assert_eq!(MoonlinkRow::new(vec![]).id(), None);
    assert_eq!(MoonlinkRow::new(vec![RowValue::Null, RowValue::Int32(1)]).id(), None);
    assert_eq!(MoonlinkRow::new(vec![RowValue::Int64(5)]).id(), None);
    assert_eq!(MoonlinkRow::new(vec![RowValue::Int32(-4)]).id(), Some(-4));
}

#[test]
fn rows_compare_by_their_values() {
    let a = test_row(1, "x", 2);
    assert!(a.same(&test_row(1, "x", 2)));
    assert!(a.same(&a.clone()));
    assert!(!a.same(&test_row(1, "y", 2)));
    assert!(!a.same(&test_row(1, "x", 3)));
    assert!(!a.same(&MoonlinkRow::new(vec![RowValue::Int32(1)])));
    let b = MoonlinkRow::new(vec![RowValue::Bool(true), RowValue::Null, RowValue::Int64(9)]);
    assert!(b.same(&MoonlinkRow::new(vec![
        RowValue::Bool(true),
        RowValue::Null,
        RowValue::Int64(9)
    ])));
    assert!(!b.same(&MoonlinkRow::new(vec![
        RowValue::Bool(false),
        RowValue::Null,
        RowValue::Int64(9)
    ])));
}

#[test]
fn row_name_is_row_and_decimal_id() {
    assert_eq!(row_name(0), "Row 0");
    assert_eq!(row_name(9), "Row 9");
    assert_eq!(row_name(10), "Row 10");
    assert_eq!(row_name(1234567), "Row 1234567");
    assert_eq!(row_name(-5), "Row -5");
    assert_eq!(row_name(i32::MAX), "Row 2147483647");
    assert_eq!(row_name(i32::MIN), "Row -2147483648");
    for id in [-1001, -1, 1, 99, 100, 101, 65536] {
        assert_eq!(row_name(id), format!("Row {id}"));
    }
}

#[test]
fn batch_rows_counts_up_from_start() {
    let rows = batch_rows(3, 4);
    assert_eq!(rows.len(), 4);
    for (k, row) in rows.iter().enumerate() {
        let id = 3 + k as i32;
        assert!(row.same(&test_row(id, &format!("Row {id}"), 30 + id)));
    }
}

#[test]
fn batch_rows_is_empty_without_positive_count() {
    assert_eq!(batch_rows(5, 0).len(), 0);
    assert_eq!(batch_rows(5, -3).len(), 0);
    assert_eq!(batch_rows(2147483640, 0).len(), 0);
    assert_eq!(batch_rows(i32::MAX, 0).len(), 0);
    assert_eq!(batch_rows(i32::MAX, -1).len(), 0);
    assert_eq!(batch_rows(i32::MIN, 0).len(), 0);
}

#[test]
fn batch_rows_have_ascending_ids() {
    let ids: Vec<Option<i32>> = batch_rows(2147483610, 8).iter().map(|row| row.id()).collect();
    assert_eq!(ids, (2147483610..2147483618).map(Some).collect::<Vec<_>>());
}

#[test]
fn batch_rows_reaches_negative_ids() {
    let rows = batch_rows(-2, 3);
    assert_eq!(rows.len(), 3);
    assert!(rows[0].same(&test_row(-2, "Row -2", 28)));
    assert!(rows[1].same(&test_row(-1, "Row -1", 29)));
    assert!(rows[2].same(&test_row(0, "Row 0", 30)));
}

#[test]
fn schema_accepts_rows_of_its_shape() {
    let schema = create_test_schema();
    assert_eq!(
        schema.columns,
        vec![ColumnType::Int32, ColumnType::ByteArray, ColumnType::Int32]
    );
    assert!(schema.accepts(&test_row(1, "a", 2)));
    assert!(schema.accepts(&MoonlinkRow::new(vec![
        RowValue::Null,
        RowValue::Null,
        RowValue::Null
    ])));
    assert!(!schema.accepts(&MoonlinkRow::new(vec![RowValue::Int32(1)])));
    assert!(!schema.accepts(&MoonlinkRow::new(vec![
        RowValue::Int32(1),
        RowValue::Int32(2),
        RowValue::Int32(3)
    ])));
    assert!(!schema.accepts(&MoonlinkRow::new(vec![
        RowValue::Int64(1),
        RowValue::ByteArray(vec![]),
        RowValue::Int32(3)
    ])));
    let wide = Schema::new(vec![ColumnType::Bool, ColumnType::Int64]);
    assert!(wide.accepts(&MoonlinkRow::new(vec![RowValue::Bool(false), RowValue::Int64(1)])));
    assert!(!wide.accepts(&MoonlinkRow::new(vec![RowValue::Int64(1), RowValue::Bool(false)])));
    assert!(wide.copy().accepts(&MoonlinkRow::new(vec![RowValue::Null, RowValue::Int64(1)])));
}
