use region_control::metadata::ColumnMetadata;
use region_control::row::{ColumnSchema, Row, Rows};
use region_control::storage::RegionId;
use region_control::worker::{
    RegionCloseRequest, RegionCreateRequest, RegionOpenRequest, RegionRequest, RegionWorkerLoop,
    RegionWriteRequest, WorkerError,
};

fn create_request(region_dir: &str) -> RegionCreateRequest {
    RegionCreateRequest {
        column_metadatas: vec![
            ColumnMetadata { column_id: 1, name: "ts".to_string() },
            ColumnMetadata { column_id: 2, name: "tag_0".to_string() },
            ColumnMetadata { column_id: 3, name: "field_0".to_string() },
        ],
        primary_key: vec![2],
        create_if_not_exists: false,
        region_dir: region_dir.to_string(),
    }
}

fn open_request(region_dir: &str) -> RegionOpenRequest {
    RegionOpenRequest { engine: String::new(), region_dir: region_dir.to_string() }
}

#[test]
fn test_engine_new_stop() {
    let mut engine = RegionWorkerLoop::new();
    let region_id = RegionId::new(1, 1);
    engine
        .handle_request(region_id, RegionRequest::Create(create_request("engine-stop")))
        .unwrap();

    // Stop the engine to reject further requests.
    engine.stop();
    assert!(!engine.is_region_exists(region_id));

    let err = engine
        .handle_request(RegionId::new(1, 2), RegionRequest::Create(create_request("engine-stop-2")))
        .unwrap_err();
    assert!(matches!(err, WorkerError::WorkerStopped), "unexpected err: {err:?}");
}

#[test]
fn test_engine_create_new_region() {
    let mut engine = RegionWorkerLoop::new();
    let region_id = RegionId::new(1, 1);
    engine
        .handle_request(region_id, RegionRequest::Create(create_request("new-region")))
        .unwrap();
    assert!(engine.is_region_exists(region_id));
}

#[test]
fn test_engine_create_region_if_not_exists() {
    let mut engine = RegionWorkerLoop::new();
    let region_id = RegionId::new(1, 1);
    let mut request = create_request("create-not-exists");
    request.create_if_not_exists = true;
    engine.handle_request(region_id, RegionRequest::Create(request)).unwrap();

    // Create the same region again.
    let mut request = create_request("create-not-exists");
    request.create_if_not_exists = true;
    engine.handle_request(region_id, RegionRequest::Create(request)).unwrap();
}

#[test]
fn test_engine_create_existing_region() {
    let mut engine = RegionWorkerLoop::new();
    let region_id = RegionId::new(1, 1);
    engine
        .handle_request(region_id, RegionRequest::Create(create_request("create-existing")))
        .unwrap();

    // Create the same region again.
    let err = engine
        .handle_request(region_id, RegionRequest::Create(create_request("create-existing")))
        .unwrap_err();
    assert!(matches!(err, WorkerError::RegionExists { .. }), "unexpected err: {err:?}");
}

#[test]
fn test_engine_create_invalid_metadata() {
    let mut engine = RegionWorkerLoop::new();
    let mut request = create_request("invalid-metadata");
    // The primary key names a column that is not there.
    request.primary_key = vec![9];
    let err = engine
        .handle_request(RegionId::new(1, 1), RegionRequest::Create(request))
        .unwrap_err();
    assert!(matches!(err, WorkerError::InvalidMetadata));
}

#[test]
fn test_engine_open_empty() {
    let mut engine = RegionWorkerLoop::new();
    let err = engine
        .handle_request(RegionId::new(1, 1), RegionRequest::Open(open_request("empty")))
        .unwrap_err();
    assert!(matches!(err, WorkerError::RegionNotFound { .. }), "unexpected err: {err:?}");
}

#[test]
fn test_engine_open_existing() {
    let mut engine = RegionWorkerLoop::new();
    let region_id = RegionId::new(1, 1);
    let request = create_request("open-exiting");
    let region_dir = request.region_dir.clone();
    engine.handle_request(region_id, RegionRequest::Create(request)).unwrap();

    engine.handle_request(region_id, RegionRequest::Open(open_request(&region_dir))).unwrap();
}

#[test]
fn test_engine_close_region() {
    let mut engine = RegionWorkerLoop::new();
    let region_id = RegionId::new(1, 1);
    // It's okay to close a region that does not exist.
    engine.handle_request(region_id, RegionRequest::Close(RegionCloseRequest {})).unwrap();

    engine.handle_request(region_id, RegionRequest::Create(create_request("close"))).unwrap();

    // Close the created region.
    engine.handle_request(region_id, RegionRequest::Close(RegionCloseRequest {})).unwrap();
    assert!(!engine.is_region_exists(region_id));

    // It's okay to close this region again.
    engine.handle_request(region_id, RegionRequest::Close(RegionCloseRequest {})).unwrap();
}

#[test]
fn test_engine_reopen_region() {
    let mut engine = RegionWorkerLoop::new();
    let region_id = RegionId::new(1, 1);
    let request = create_request("reopen-region");
    let region_dir = request.region_dir.clone();
    engine.handle_request(region_id, RegionRequest::Create(request)).unwrap();

    // Close the region.
    engine.handle_request(region_id, RegionRequest::Close(RegionCloseRequest {})).unwrap();

    // Open the region again.
    engine.handle_request(region_id, RegionRequest::Open(open_request(&region_dir))).unwrap();
    assert!(engine.is_region_exists(region_id));
}

#[test]
fn test_engine_write_validates_schema() {
    let mut engine = RegionWorkerLoop::new();
    let region_id = RegionId::new(1, 1);
    engine.handle_request(region_id, RegionRequest::Create(create_request("write"))).unwrap();

    // A batch naming the region's columns is accepted.
    let good = Rows {
        schema: vec![
            ColumnSchema { column_name: "ts".to_string(), datatype: 15, semantic_type: 2 },
            ColumnSchema { column_name: "tag_0".to_string(), datatype: 12, semantic_type: 0 },
            ColumnSchema { column_name: "field_0".to_string(), datatype: 10, semantic_type: 1 },
        ],
        rows: vec![],
    };
    engine
        .handle_request(region_id, RegionRequest::Write(RegionWriteRequest { rows: good }))
        .unwrap();

    // A batch with a stranger's schema is refused.
    let bad = Rows {
        schema: vec![ColumnSchema {
            column_name: "other".to_string(),
            datatype: 12,
            semantic_type: 0,
        }],
        rows: vec![],
    };
    let err = engine
        .handle_request(region_id, RegionRequest::Write(RegionWriteRequest { rows: bad }))
        .unwrap_err();
    assert!(matches!(err, WorkerError::InvalidMetadata));

    // A write to a region that is not open fails.
    let empty = Rows { schema: vec![], rows: vec![] };
    let err = engine
        .handle_request(
            RegionId::new(1, 9),
            RegionRequest::Write(RegionWriteRequest { rows: empty }),
        )
        .unwrap_err();
    assert!(matches!(err, WorkerError::RegionNotFound { .. }));
}

#[test]
fn test_region_id_halves() {
    let id = RegionId::new(7, 42);
    assert_eq!(id.table_id(), 7);
    assert_eq!(id.region_number(), 42);
    assert_eq!(id.as_u64(), (7u64 << 32) | 42);
}
