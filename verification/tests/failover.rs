use region_control::failover::{
    handle_request_datanode_error, handle_retry_error, DatanodeResponseError, FailoverState,
    ProcedureError, RegionIdent, RequestError, TableIdent, UpdateRegionMetadata,
};
use region_control::lock::DistLock;
use region_control::meta::{MetaError, MetadataStore, TableRouteValue};
use region_control::route::{extract_all_peers, region_distribution, Peer, Region, RegionRoute};

fn new_region_route(region_id: u64, leader: u64) -> RegionRoute {
    RegionRoute {
        region: Region {
            id: region_id,
            name: format!("region-{}", region_id),
            partition: None,
        },
        leader_peer: Some(Peer::new(leader, "")),
        follower_peers: vec![],
    }
}

/// Region routes as in a freshly created four-region table:
/// 1 => 1, 2 => 1, 3 => 2, 4 => 3.
fn new_store() -> MetadataStore {
    let mut store = MetadataStore::new();
    store.put_table_route(
        1,
        TableRouteValue {
            version: 0,
            region_routes: vec![
                new_region_route(1, 1),
                new_region_route(2, 1),
                new_region_route(3, 2),
                new_region_route(4, 3),
            ],
        },
    );
    store
}

fn failed_region(region_number: u32) -> RegionIdent {
    RegionIdent {
        cluster_id: 0,
        datanode_id: 1,
        table_ident: TableIdent { table_id: 1, table_name: "my_table".to_string() },
        region_number,
    }
}

fn leader_ids(store: &MetadataStore) -> Vec<u64> {
    let value = store.get_table_route(1).unwrap();
    value
        .region_routes
        .iter()
        .map(|r| r.leader_peer.as_ref().unwrap().id)
        .collect()
}

#[test]
fn test_next_state() {
    let mut lock = DistLock::new();
    let mut store = new_store();
    let state = UpdateRegionMetadata::new(Peer::new(2, ""));

    let next_state = state.next(&mut lock, &mut store, &failed_region(1)).unwrap();
    assert_eq!(format!("{next_state:?}"), "InvalidateCache");
}

#[test]
fn test_update_table_route() {
    fn run(failed: u32, candidate: u64) -> MetadataStore {
        let mut store = new_store();
        let state = UpdateRegionMetadata::new(Peer::new(candidate, ""));
        state.update_table_route(&mut store, &failed_region(failed)).unwrap();
        store
    }

    // Failed region 1 moves to datanode 2.
    let store = run(1, 2);
    assert_eq!(leader_ids(&store), vec![2, 1, 2, 3]);
    let peers = extract_all_peers(&store.get_table_route(1).unwrap().region_routes);
    assert_eq!(peers.len(), 3);

    // Failed region 3 moves to datanode 3.
    let store = run(3, 3);
    assert_eq!(leader_ids(&store), vec![1, 1, 3, 3]);
    let peers = extract_all_peers(&store.get_table_route(1).unwrap().region_routes);
    assert_eq!(peers.len(), 2);

    // Failed region 1 moves to a new datanode, 4.
    let store = run(1, 4);
    assert_eq!(leader_ids(&store), vec![4, 1, 2, 3]);
    let peers = extract_all_peers(&store.get_table_route(1).unwrap().region_routes);
    assert_eq!(peers.len(), 4);

    // Failed region 3 moves to a new datanode, 4.
    let store = run(3, 4);
    assert_eq!(leader_ids(&store), vec![1, 1, 4, 3]);
    let peers = extract_all_peers(&store.get_table_route(1).unwrap().region_routes);
    assert_eq!(peers.len(), 3);
}

#[test]
fn test_update_metadata_concurrently() {
    // Region 1 moves to datanode 2, region 2 moves to datanode 3; the
    // table-level lock serializes the two moves, in either order, and
    // both land. Repeated to exercise both interleavings evenly.
    for round in 0..10 {
        let mut lock = DistLock::new();
        let mut store = new_store();

        let move_1 = UpdateRegionMetadata::new(Peer::new(2, ""));
        let move_2 = UpdateRegionMetadata::new(Peer::new(3, ""));

        if round % 2 == 0 {
            move_1.update_metadata(&mut lock, &mut store, &failed_region(1)).unwrap();
            move_2.update_metadata(&mut lock, &mut store, &failed_region(2)).unwrap();
        } else {
            move_2.update_metadata(&mut lock, &mut store, &failed_region(2)).unwrap();
            move_1.update_metadata(&mut lock, &mut store, &failed_region(1)).unwrap();
        }

        assert_eq!(leader_ids(&store), vec![2, 3, 2, 3]);
        let routes = &store.get_table_route(1).unwrap().region_routes;
        let peers = extract_all_peers(routes);
        assert_eq!(peers.len(), 2);

        let map = region_distribution(routes).unwrap();
        assert_eq!(map.len(), 2);
        assert_eq!(map[0].0, 2);
        assert_eq!(map[0].1, vec![1, 3]);
        assert_eq!(map[1].0, 3);
        assert_eq!(map[1].1, vec![2, 4]);
    }
}

#[test]
fn test_update_metadata_reexecution_converges() {
    // Re-executing the update step after a crash leaves the same
    // region routes.
    let mut lock = DistLock::new();
    let mut store = new_store();
    let state = UpdateRegionMetadata::new(Peer::new(2, ""));

    state.update_metadata(&mut lock, &mut store, &failed_region(1)).unwrap();
    let first = leader_ids(&store);
    state.update_metadata(&mut lock, &mut store, &failed_region(1)).unwrap();
    assert_eq!(leader_ids(&store), first);
}

#[test]
fn test_update_table_route_not_found() {
    let mut store = MetadataStore::new();
    let state = UpdateRegionMetadata::new(Peer::new(2, ""));
    let err = state.update_table_route(&mut store, &failed_region(1)).unwrap_err();
    assert!(matches!(err, MetaError::TableRouteNotFound { table_id: 1 }));
}

#[test]
fn test_update_metadata_lock_busy_retries_later() {
    let mut lock = DistLock::new();
    let _held = lock.lock(1).unwrap();
    let mut store = new_store();
    let state = UpdateRegionMetadata::new(Peer::new(2, ""));
    let err = state.update_metadata(&mut lock, &mut store, &failed_region(1)).unwrap_err();
    assert!(matches!(err, MetaError::RetryLater));
    // Routes stayed as they were.
    assert_eq!(leader_ids(&store), vec![1, 1, 2, 3]);
}

#[test]
fn test_update_table_route_cas_exhausted() {
    let mut store = MetadataStore::new();
    store.put_table_route(
        1,
        TableRouteValue { version: u64::MAX, region_routes: vec![new_region_route(1, 1)] },
    );
    let state = UpdateRegionMetadata::new(Peer::new(2, ""));
    let err = state.update_table_route(&mut store, &failed_region(1)).unwrap_err();
    assert!(matches!(err, MetaError::UpdateTableRoute { table_id: 1 }));
}

#[test]
fn test_handle_retry_error() {
    assert_eq!(
        handle_retry_error(MetaError::RetryLater),
        ProcedureError::RetryLater(MetaError::RetryLater)
    );
    assert_eq!(
        handle_retry_error(MetaError::TableRouteNotFound { table_id: 7 }),
        ProcedureError::External(MetaError::TableRouteNotFound { table_id: 7 })
    );
}

#[test]
fn test_handle_request_datanode_error() {
    let peer = Peer::new(4, "");
    assert_eq!(
        handle_request_datanode_error(&peer, DatanodeResponseError::FlightGet),
        RequestError::RetryLater
    );
    assert_eq!(
        handle_request_datanode_error(&peer, DatanodeResponseError::Other),
        RequestError::RequestDatanode { datanode_id: 4 }
    );
}

#[test]
fn test_failover_state_names() {
    assert_eq!(format!("{:?}", FailoverState::Detected), "Detected");
    assert_eq!(format!("{:?}", FailoverState::ElectCandidate), "ElectCandidate");
    assert_eq!(format!("{:?}", FailoverState::Done), "Done");
}

#[test]
fn test_dist_lock_mutual_exclusion_and_fencing() {
    let mut lock = DistLock::new();
    let t1 = lock.lock(5).unwrap();
    assert!(lock.lock(5).is_none());
    let t2 = lock.lock(6).unwrap();
    assert!(t2.fencing > t1.fencing);
    lock.unlock(t1);
    let t3 = lock.lock(5).unwrap();
    assert!(t3.fencing > t2.fencing);
}
