use region_control::error::PartitionError;
use region_control::partition::PartitionExpr;
use region_control::row::{ColumnSchema, Row, RowInsertRequest, Rows};
use region_control::row_splitter::RowSplitter;
use region_control::rule::PartitionRule;
use region_control::value::Value;

fn mock_insert_request() -> RowInsertRequest {
    let schema = vec![
        ColumnSchema { column_name: "id".to_string(), datatype: 12, semantic_type: 0 },
        ColumnSchema { column_name: "name".to_string(), datatype: 12, semantic_type: 0 },
        ColumnSchema { column_name: "age".to_string(), datatype: 7, semantic_type: 1 },
    ];
    let rows = vec![
        Row {
            values: vec![
                Value::Str("1".to_string()),
                Value::Str("Smith".to_string()),
                Value::UInt64(20),
            ],
        },
        Row {
            values: vec![
                Value::Str("2".to_string()),
                Value::Str("Johnson".to_string()),
                Value::UInt64(21),
            ],
        },
        Row {
            values: vec![
                Value::Str("3".to_string()),
                Value::Str("Williams".to_string()),
                Value::UInt64(22),
            ],
        },
    ];
    RowInsertRequest {
        table_name: "t".to_string(),
        rows: Some(Rows { schema, rows }),
        region_number: 0,
    }
}

struct MockPartitionRule;

impl PartitionRule for MockPartitionRule {
    fn partition_columns(&self) -> Vec<String> {
        vec!["id".to_string()]
    }

    fn find_region(&self, values: &Vec<Value>) -> Result<u32, PartitionError> {
        let val = match values.get(0).unwrap() {
            Value::Str(v) => v.clone(),
            _ => unreachable!(),
        };
        Ok(val.parse::<u32>().unwrap() % 2)
    }

    fn find_regions_by_exprs(&self, _: &Vec<PartitionExpr>) -> Result<Vec<u32>, PartitionError> {
        panic!("not used by the splitter");
    }
}

struct MockMissedColPartitionRule;

impl PartitionRule for MockMissedColPartitionRule {
    fn partition_columns(&self) -> Vec<String> {
        vec!["missed_col".to_string()]
    }

    fn find_region(&self, values: &Vec<Value>) -> Result<u32, PartitionError> {
        let val = match values.get(0).unwrap() {
            Value::Null => 1,
            _ => 0,
        };
        Ok(val)
    }

    fn find_regions_by_exprs(&self, _: &Vec<PartitionExpr>) -> Result<Vec<u32>, PartitionError> {
        panic!("not used by the splitter");
    }
}

struct EmptyPartitionRule;

impl PartitionRule for EmptyPartitionRule {
    fn partition_columns(&self) -> Vec<String> {
        vec![]
    }

    fn find_region(&self, _values: &Vec<Value>) -> Result<u32, PartitionError> {
        Ok(0)
    }

    fn find_regions_by_exprs(&self, _: &Vec<PartitionExpr>) -> Result<Vec<u32>, PartitionError> {
        panic!("not used by the splitter");
    }
}

#[test]
fn test_writer_splitter() {
    let insert_request = mock_insert_request();
    let splitter = RowSplitter::new(MockPartitionRule);
    let splits = splitter.split(insert_request).unwrap();

    assert_eq!(splits.len(), 2);

    let req0 = splits.get(0).unwrap();
    let req1 = splits.get(1).unwrap();
    assert_eq!(req0.region_number, 0);
    assert_eq!(req1.region_number, 1);

    let rows0 = req0.rows.as_ref().unwrap();
    let rows1 = req1.rows.as_ref().unwrap();
    assert_eq!(rows0.rows.len(), 1);
    assert_eq!(rows1.rows.len(), 2);
}

#[test]
fn test_missed_col_writer_splitter() {
    let insert_request = mock_insert_request();
    let splitter = RowSplitter::new(MockMissedColPartitionRule);
    let splits = splitter.split(insert_request).unwrap();

    assert_eq!(splits.len(), 1);

    let req = splits.get(1).unwrap();
    assert_eq!(req.region_number, 1);

    let rows = req.rows.as_ref().unwrap();
    assert_eq!(rows.rows.len(), 3);
}

#[test]
fn test_empty_partition_rule_writer_splitter() {
    let insert_request = mock_insert_request();
    let splitter = RowSplitter::new(EmptyPartitionRule);
    let splits = splitter.split(insert_request).unwrap();

    assert_eq!(splits.len(), 1);

    let req = splits.get(0).unwrap();
    assert_eq!(req.region_number, 0);

    let rows = req.rows.as_ref().unwrap();
    assert_eq!(rows.rows.len(), 3);
}

#[test]
fn test_splitter_keeps_row_order() {
    // The rows of one destination group appear in their input order.
    let insert_request = mock_insert_request();
    let splitter = RowSplitter::new(MockPartitionRule);
    let splits = splitter.split(insert_request).unwrap();
    let req1 = splits.get(1).unwrap();
    let rows1 = req1.rows.as_ref().unwrap();
    match &rows1.rows[0].values[0] {
        Value::Str(s) => assert_eq!(s, "1"),
        _ => unreachable!(),
    }
    match &rows1.rows[1].values[0] {
        Value::Str(s) => assert_eq!(s, "3"),
        _ => unreachable!(),
    }
}
