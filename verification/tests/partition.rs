use region_control::columns::RangeColumnsPartitionRule;
use region_control::error::PartitionError;
use region_control::failover::{next_invalidate_cache, FailoverState};
use region_control::manager::{FilterExpr, PartitionRuleManager, TablePartitionRule, TableRoutes};
use region_control::memtable::{
    DefaultMemtableBuilder, EmptyMemtable, KeyValues, Memtable, MemtableBuilder, ScanRequest,
};
use region_control::meta::{MetadataStore, TableRouteValue};
use region_control::metadata::RegionMetadata;
use region_control::partition::{
    is_compare_op, reverse_operator, Operator, PartitionBound, PartitionDef, PartitionExpr,
};
use region_control::prom::{is_supported, negotiate_response_type, NegotiateError, ResponseType};
use region_control::range::RangePartitionRule;
use region_control::route::{Peer, Region, RegionRoute};
use region_control::row::{ColumnSchema, Row, RowInsertRequest, Rows};
use region_control::rule::PartitionRule;
use region_control::value::{value_compare, Value};

#[test]
fn test_value_order() {
    // Null sorts before all values; kinds are ordered; strings compare
    // by characters.
    assert!(value_compare(&Value::Null, &Value::Int64(-5)) < 0);
    assert!(value_compare(&Value::Int64(-5), &Value::Int64(3)) < 0);
    assert!(value_compare(&Value::Int64(3), &Value::Int64(3)) == 0);
    assert!(value_compare(&Value::Str("ab".to_string()), &Value::Str("b".to_string())) < 0);
    assert!(value_compare(&Value::Str("abc".to_string()), &Value::Str("ab".to_string())) > 0);
    assert!(value_compare(&Value::Int64(9), &Value::Str("a".to_string())) < 0);
}

fn range_rule() -> RangePartitionRule {
    RangePartitionRule::new(
        "id".to_string(),
        vec![Value::Int64(10), Value::Int64(20)],
        vec![1, 2, 3],
    )
}

#[test]
fn test_range_rule_find_region() {
    let rule = range_rule();
    assert_eq!(rule.find_region(&vec![Value::Int64(5)]).unwrap(), 1);
    assert_eq!(rule.find_region(&vec![Value::Int64(10)]).unwrap(), 2);
    assert_eq!(rule.find_region(&vec![Value::Int64(15)]).unwrap(), 2);
    assert_eq!(rule.find_region(&vec![Value::Int64(20)]).unwrap(), 3);
    assert_eq!(rule.find_region(&vec![Value::Int64(99)]).unwrap(), 3);
    // Null sorts before every bound.
    assert_eq!(rule.find_region(&vec![Value::Null]).unwrap(), 1);
}

#[test]
fn test_range_rule_find_regions_by_exprs() {
    let rule = range_rule();
    let eq = vec![PartitionExpr::new("id".to_string(), Operator::Eq, Value::Int64(15))];
    assert_eq!(rule.find_regions_by_exprs(&eq).unwrap(), vec![2]);

    let lt = vec![PartitionExpr::new("id".to_string(), Operator::Lt, Value::Int64(15))];
    assert_eq!(rule.find_regions_by_exprs(&lt).unwrap(), vec![1, 2]);

    let ge = vec![PartitionExpr::new("id".to_string(), Operator::GtEq, Value::Int64(15))];
    assert_eq!(rule.find_regions_by_exprs(&ge).unwrap(), vec![2, 3]);

    // An expression on another column is conservative: all regions.
    let other = vec![PartitionExpr::new("name".to_string(), Operator::Eq, Value::Int64(1))];
    assert_eq!(rule.find_regions_by_exprs(&other).unwrap(), vec![1, 2, 3]);

    // No expressions at all: all regions.
    assert_eq!(rule.find_regions_by_exprs(&vec![]).unwrap(), vec![1, 2, 3]);
}

#[test]
fn test_range_columns_rule_find_region() {
    let rule = RangeColumnsPartitionRule::new(
        vec!["a".to_string(), "b".to_string()],
        vec![
            vec![PartitionBound::Value(Value::Int64(10)), PartitionBound::Value(Value::Int64(5))],
            vec![PartitionBound::MaxValue, PartitionBound::MaxValue],
        ],
        vec![1, 2],
    );
    // (3, _) sorts below (10, 5).
    assert_eq!(rule.find_region(&vec![Value::Int64(3), Value::Int64(9)]).unwrap(), 1);
    // (10, 4) < (10, 5) on the second column.
    assert_eq!(rule.find_region(&vec![Value::Int64(10), Value::Int64(4)]).unwrap(), 1);
    // (10, 5) is not below (10, 5); it falls to the MaxValue row.
    assert_eq!(rule.find_region(&vec![Value::Int64(10), Value::Int64(5)]).unwrap(), 2);
    assert_eq!(rule.find_region(&vec![Value::Int64(99), Value::Int64(99)]).unwrap(), 2);
}

#[test]
fn test_operator_helpers() {
    assert!(is_compare_op(&Operator::Eq));
    assert!(is_compare_op(&Operator::LtEq));
    assert!(!is_compare_op(&Operator::And));
    assert_eq!(reverse_operator(&Operator::Lt), Operator::Gt);
    assert_eq!(reverse_operator(&Operator::GtEq), Operator::LtEq);
    assert_eq!(reverse_operator(&Operator::Eq), Operator::Eq);
}

/// A table with three partitions on `id`: up to 10, 10 to 20, and the
/// rest, as regions 1, 2 and 3 of table 1.
fn partitioned_store() -> MetadataStore {
    let mut store = MetadataStore::new();
    let bounds = vec![
        PartitionBound::Value(Value::Int64(10)),
        PartitionBound::Value(Value::Int64(20)),
        PartitionBound::MaxValue,
    ];
    let mut region_routes = Vec::new();
    for (k, bound) in bounds.into_iter().enumerate() {
        region_routes.push(RegionRoute {
            region: Region {
                id: (k + 1) as u64,
                name: format!("r{}", k + 1),
                partition: Some(PartitionDef::new(vec!["id".to_string()], vec![bound])),
            },
            leader_peer: Some(Peer::new((k % 2 + 1) as u64, "")),
            follower_peers: vec![],
        });
    }
    store.put_table_route(1, TableRouteValue { version: 0, region_routes });
    store
}

fn manager() -> PartitionRuleManager {
    PartitionRuleManager::new(TableRoutes::new(partitioned_store()))
}

#[test]
fn test_find_table_partition_rule() {
    let mut manager = manager();
    let rule = manager.find_table_partition_rule(1).unwrap();
    match &rule {
        TablePartitionRule::Range(r) => {
            assert_eq!(r.column, "id");
            assert_eq!(r.bounds, vec![Value::Int64(10), Value::Int64(20)]);
            assert_eq!(r.regions, vec![1, 2, 3]);
        },
        TablePartitionRule::RangeColumns(_) => unreachable!(),
    }
    assert_eq!(rule.find_region(&vec![Value::Int64(15)]).unwrap(), 2);
}

#[test]
fn test_find_table_partitions_sorted() {
    let mut manager = manager();
    let parts = manager.find_table_partitions(1).unwrap();
    assert_eq!(parts.len(), 3);
    // MaxValue sorts last.
    assert_eq!(parts[0].id.as_u64(), 1);
    assert_eq!(parts[1].id.as_u64(), 2);
    assert_eq!(parts[2].id.as_u64(), 3);
}

#[test]
fn test_find_table_route_errors() {
    let mut manager = PartitionRuleManager::new(TableRoutes::new(MetadataStore::new()));
    let err = manager.find_table_route(9).unwrap_err();
    assert!(matches!(err, PartitionError::FindTableRoutes { table_id: 9 }));
}

#[test]
fn test_find_table_region_leaders() {
    let mut manager = manager();
    let leaders = manager.find_table_region_leaders(1).unwrap();
    assert_eq!(leaders.iter().map(|p| p.id).collect::<Vec<_>>(), vec![1, 2, 1]);
}

#[test]
fn test_find_region_leaders_missing() {
    let mut store = partitioned_store();
    let mut value = store.get_table_route(1).unwrap().clone();
    value.region_routes[1].leader_peer = None;
    store.put_table_route(1, value);
    let mut manager = PartitionRuleManager::new(TableRoutes::new(store));
    let err = manager.find_table_region_leaders(1).unwrap_err();
    assert!(matches!(err, PartitionError::FindLeader { region_id: 2, table_id: 1 }));
}

#[test]
fn test_find_region_datanodes() {
    let mut manager = manager();
    let dist = manager.find_region_datanodes(1, vec![1, 2, 3]).unwrap();
    assert_eq!(dist.len(), 2);
    assert_eq!(dist[0].0.id, 1);
    assert_eq!(dist[0].1, vec![1, 3]);
    assert_eq!(dist[1].0.id, 2);
    assert_eq!(dist[1].1, vec![2]);

    let err = manager.find_region_datanodes(9, vec![1]).unwrap_err();
    assert!(matches!(err, PartitionError::FindTableRoutes { table_id: 9 }));
}

#[test]
fn test_find_region_datanodes_no_leader() {
    let mut store = partitioned_store();
    let mut value = store.get_table_route(1).unwrap().clone();
    value.region_routes[0].leader_peer = None;
    store.put_table_route(1, value);
    let mut manager = PartitionRuleManager::new(TableRoutes::new(store));
    let err = manager.find_region_datanodes(1, vec![1]).unwrap_err();
    assert!(matches!(err, PartitionError::FindDatanode { table_id: 1, region: 1 }));
}

#[test]
fn test_partition_columns_must_agree() {
    let mut store = partitioned_store();
    let mut value = store.get_table_route(1).unwrap().clone();
    value.region_routes[2].region.partition = Some(PartitionDef::new(
        vec!["other".to_string()],
        vec![PartitionBound::MaxValue],
    ));
    store.put_table_route(1, value);
    let mut manager = PartitionRuleManager::new(TableRoutes::new(store));
    let err = manager.find_table_partitions(1).unwrap_err();
    assert!(matches!(err, PartitionError::InvalidTableRouteData { table_id: 1 }));
}

#[test]
fn test_partition_missing_definition() {
    let mut store = partitioned_store();
    let mut value = store.get_table_route(1).unwrap().clone();
    value.region_routes[1].region.partition = None;
    store.put_table_route(1, value);
    let mut manager = PartitionRuleManager::new(TableRoutes::new(store));
    let err = manager.find_table_partitions(1).unwrap_err();
    assert!(matches!(err, PartitionError::FindRegionRoutes { region_id: 2, table_id: 1 }));
}

#[test]
fn test_invalidate_table_route_is_idempotent() {
    let mut manager = manager();
    let _ = manager.find_table_route(1).unwrap();
    manager.invalidate_table_route(1);
    manager.invalidate_table_route(1);
    // The route is still served from the store afterwards.
    let route = manager.find_table_route(1).unwrap();
    assert_eq!(route.region_routes.len(), 3);
}

fn col_eq(column: &str, v: i64) -> FilterExpr {
    FilterExpr::Binary {
        left: Box::new(FilterExpr::Column(column.to_string())),
        op: Operator::Eq,
        right: Box::new(FilterExpr::Literal(Value::Int64(v))),
    }
}

#[test]
fn test_find_regions_by_filters() {
    let mut m = manager();
    let rule = m.find_table_partition_rule(1).unwrap();

    // id = 15 pins region 2.
    let regions = m.find_regions_by_filters(&rule, &vec![col_eq("id", 15)]).unwrap();
    assert_eq!(regions, vec![2]);

    // A literal on the left reads reversed: 15 < id is id > 15.
    let gt = FilterExpr::Binary {
        left: Box::new(FilterExpr::Literal(Value::Int64(15))),
        op: Operator::Lt,
        right: Box::new(FilterExpr::Column("id".to_string())),
    };
    let regions = m.find_regions_by_filters(&rule, &vec![gt]).unwrap();
    assert_eq!(regions, vec![2, 3]);

    // OR unites, AND intersects.
    let or = FilterExpr::Binary {
        left: Box::new(col_eq("id", 5)),
        op: Operator::Or,
        right: Box::new(col_eq("id", 25)),
    };
    let regions = m.find_regions_by_filters(&rule, &vec![or]).unwrap();
    assert_eq!(regions, vec![1, 3]);

    // Conjunctive filters that no region satisfies are an error.
    let err = m
        .find_regions_by_filters(&rule, &vec![col_eq("id", 5), col_eq("id", 15)])
        .unwrap_err();
    assert!(matches!(err, PartitionError::FindRegions));

    // An unreadable filter falls back to all regions.
    let regions = m.find_regions_by_filters(&rule, &vec![FilterExpr::Unsupported]).unwrap();
    assert_eq!(regions, vec![1, 2, 3]);
}

#[test]
fn test_split_row_insert_request() {
    let mut m = manager();
    let req = RowInsertRequest {
        table_name: "t".to_string(),
        rows: Some(Rows {
            schema: vec![ColumnSchema {
                column_name: "id".to_string(),
                datatype: 4,
                semantic_type: 0,
            }],
            rows: vec![
                Row { values: vec![Value::Int64(5)] },
                Row { values: vec![Value::Int64(15)] },
                Row { values: vec![Value::Int64(25)] },
                Row { values: vec![Value::Int64(7)] },
            ],
        }),
        region_number: 0,
    };
    let splits = m.split_row_insert_request(1, req).unwrap();
    assert_eq!(splits.len(), 3);
    let req1 = splits.get(1).unwrap();
    assert_eq!(req1.region_number, 1);
    let rows1 = req1.rows.as_ref().unwrap();
    assert_eq!(rows1.rows.len(), 2);
    assert_eq!(rows1.rows[0].values, vec![Value::Int64(5)]);
    assert_eq!(rows1.rows[1].values, vec![Value::Int64(7)]);
    assert_eq!(splits.get(2).unwrap().rows.as_ref().unwrap().rows.len(), 1);
    assert_eq!(splits.get(3).unwrap().rows.as_ref().unwrap().rows.len(), 1);
}

#[test]
fn test_failover_invalidate_cache_step() {
    let mut m = manager();
    let _ = m.find_table_route(1).unwrap();
    let state = next_invalidate_cache(&mut m, 1);
    assert!(matches!(state, FailoverState::Done));
    // The next fetch reads the store again.
    let route = m.find_table_route(1).unwrap();
    assert_eq!(route.region_routes.len(), 3);
}

#[test]
fn test_negotiate_response_type() {
    // No stated preference: samples.
    assert_eq!(negotiate_response_type(&vec![]).unwrap(), ResponseType::Samples);
    // The first supported entry wins.
    assert_eq!(negotiate_response_type(&vec![1, 0]).unwrap(), ResponseType::Samples);
    assert_eq!(negotiate_response_type(&vec![0]).unwrap(), ResponseType::Samples);
    // A client that accepts only streamed chunks is refused.
    let err = negotiate_response_type(&vec![1]).unwrap_err();
    assert!(matches!(err, NegotiateError::NotSupported));

    assert!(is_supported(0));
    assert!(!is_supported(1));
    assert!(!is_supported(99));
}

#[test]
fn test_empty_memtable() {
    let mut builder = DefaultMemtableBuilder::new();
    let metadata = RegionMetadata { column_metadatas: vec![], primary_key: vec![] };
    let mut m0: EmptyMemtable = builder.build(&metadata);
    let m1: EmptyMemtable = builder.build(&metadata);
    assert_eq!(m0.id(), 0);
    assert_eq!(m1.id(), 1);

    // The placeholder memtable retains nothing.
    let kvs = KeyValues { rows: Rows { schema: vec![], rows: vec![] } };
    m0.write(&kvs).unwrap();
    assert_eq!(m0.iter(ScanRequest {}).len(), 0);
}
