use region_control::insert::{
    add_values_to_builder, is_null, to_table_insert_request, Column, InsertError,
};
use region_control::value::Value;

#[test]
fn test_is_null() {
    let null_mask = vec![0b0000_0001, 0b0000_1000];

    assert_eq!(Some(true), is_null(&null_mask, 0));
    assert_eq!(Some(false), is_null(&null_mask, 1));
    assert_eq!(Some(false), is_null(&null_mask, 10));
    assert_eq!(Some(true), is_null(&null_mask, 11));
    assert_eq!(Some(false), is_null(&null_mask, 12));

    assert_eq!(None, is_null(&null_mask, 16));
    assert_eq!(None, is_null(&null_mask, 99));
}

#[test]
fn test_add_values_passthrough_without_mask() {
    let values = vec![Value::Int64(1), Value::Int64(2)];
    let out = add_values_to_builder(values, 2, vec![]).unwrap();
    assert_eq!(out, vec![Value::Int64(1), Value::Int64(2)]);
}

#[test]
fn test_add_values_unfolds_nulls() {
    // Rows 0 and 2 carry values, row 1 is null: mask 0b010.
    let values = vec![Value::Int64(7), Value::Int64(9)];
    let out = add_values_to_builder(values, 3, vec![0b010]).unwrap();
    assert_eq!(out, vec![Value::Int64(7), Value::Null, Value::Int64(9)]);
}

#[test]
fn test_add_values_length_mismatch() {
    // One null plus one value cannot make three rows.
    let values = vec![Value::Int64(7)];
    let err = add_values_to_builder(values, 3, vec![0b010]).unwrap_err();
    assert!(matches!(err, InsertError::UnexpectedValuesLength));
}

fn column(name: &str, values: Option<Vec<Value>>, null_mask: Vec<u8>) -> Column {
    Column {
        column_name: name.to_string(),
        values,
        null_mask,
        datatype: 4,
        semantic_type: 1,
    }
}

#[test]
fn test_to_table_insert_request() {
    let columns = vec![
        column("host", Some(vec![Value::Str("host1".to_string())]), vec![0b10]),
        column("skipped", None, vec![]),
        column("mem", Some(vec![Value::UInt64(10), Value::UInt64(11)]), vec![0]),
    ];
    let req = to_table_insert_request("central", "public", "demo".to_string(), columns, 2, 0)
        .unwrap();

    assert_eq!(req.catalog_name, "central");
    assert_eq!(req.schema_name, "public");
    assert_eq!(req.table_name, "demo");
    assert_eq!(req.region_number, 0);

    // The column without values was skipped.
    assert_eq!(req.columns_values.len(), 2);
    assert_eq!(req.columns_values[0].0, "host");
    assert_eq!(
        req.columns_values[0].1,
        vec![Value::Str("host1".to_string()), Value::Null]
    );
    assert_eq!(req.columns_values[1].0, "mem");
    assert_eq!(req.columns_values[1].1, vec![Value::UInt64(10), Value::UInt64(11)]);
}

#[test]
fn test_to_table_insert_request_duplicate_column() {
    let columns = vec![
        column("host", Some(vec![Value::UInt64(1)]), vec![]),
        column("host", Some(vec![Value::UInt64(2)]), vec![]),
    ];
    let err = to_table_insert_request("central", "public", "demo".to_string(), columns, 1, 0)
        .unwrap_err();
    assert!(matches!(err, InsertError::ColumnAlreadyExists));
}
