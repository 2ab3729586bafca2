//! The region failover procedure: a durable state machine that elects
//! a candidate host for a failed region, reassigns leadership in the
//! table route under the table's metadata lock, and invalidates routing
//! caches. Each state is persisted, so the controller may crash and
//! resume.

use vstd::prelude::*;

use crate::lock::DistLock;
use crate::meta::{MetadataStore, MetaError, TableRouteValue, TableRouteValueV};
use crate::route::{clone_routes, routes_view, Peer, PeerV, RegionRoute, RegionRouteV};
use crate::rule::{
    first_hit, lemma_first_hit_char, lemma_first_hit_pointwise, lemma_first_hit_unique,
};
use crate::storage::{RegionNumber, TableId};

verus! {

/// Full identity of a table as the failover procedure addresses it.
pub struct TableIdent {
    pub table_id: TableId,
    pub table_name: String,
}

/// Full identity of the failed region.
pub struct RegionIdent {
    pub cluster_id: u64,
    pub datanode_id: u64,
    pub table_ident: TableIdent,
    pub region_number: RegionNumber,
}

/// The lock key a failover takes: keyed by table, not by region, so
/// concurrent failovers of regions of one table serialize.
pub open spec fn spec_table_metadata_lock_key(failed_region: &RegionIdent) -> u64 {
    failed_region.table_ident.table_id as u64
}

pub fn table_metadata_lock_key(failed_region: &RegionIdent) -> (r: u64)
    ensures
        r == spec_table_metadata_lock_key(failed_region),
{
    failed_region.table_ident.table_id as u64
}

/// Whether a route belongs to the given region.
pub open spec fn region_pred(region_number: RegionNumber) -> spec_fn(RegionRouteV) -> bool {
    |r: RegionRouteV| r.region.id == region_number as u64
}

/// The routes with the failed region's leader reassigned: the first
/// route of that region, if any, gets the candidate as leader; every
/// other route stays as it is.
pub open spec fn set_leader(
    routes: Seq<RegionRouteV>,
    region_number: RegionNumber,
    candidate: PeerV,
) -> Seq<RegionRouteV> {
    let i = first_hit(region_pred(region_number), routes);
    if i < routes.len() {
        routes.update(
            i,
            RegionRouteV {
                region: routes[i].region,
                leader_peer: Some(candidate),
                follower_peers: routes[i].follower_peers,
            },
        )
    } else {
        routes
    }
}

/// Copy of the routes with the failed region's leader reassigned.
fn set_leader_routes(
    routes: &Vec<RegionRoute>,
    region_number: RegionNumber,
    candidate: &Peer,
) -> (r: Vec<RegionRoute>)
    ensures
        routes_view(r@) == set_leader(routes_view(routes@), region_number, candidate@),
{
    let ghost rv = routes_view(routes@);
    let ghost pred = region_pred(region_number);
    let mut out: Vec<RegionRoute> = Vec::new();
    let mut done = false;
    let ghost hit: int = 0;
    let mut i: usize = 0;
    while i < routes.len()
        invariant
            i <= routes@.len(),
            rv == routes_view(routes@),
            rv.len() == routes@.len(),
            pred == region_pred(region_number),
            out@.len() == i,
            !done ==> forall|j: int| 0 <= j < i ==> !pred(#[trigger] rv[j]),
            !done ==> routes_view(out@) == rv.subrange(0, i as int),
            done ==> 0 <= hit < i && hit == first_hit(pred, rv) && routes_view(out@)
                == rv.subrange(0, i as int).update(
                hit,
                RegionRouteV {
                    region: rv[hit].region,
                    leader_peer: Some(candidate@),
                    follower_peers: rv[hit].follower_peers,
                },
            ),
        decreases routes@.len() - i,
    {
        let route = &routes[i];
        let ghost out0 = routes_view(out@);
        if !done && route.region.id == region_number as u64 {
            let mut updated = route.clone();
            updated.leader_peer = Some(candidate.clone());
            proof {
                assert(pred(rv[i as int]));
                lemma_first_hit_unique(pred, rv, i as int);
                hit = i as int;
                assert(updated@ == (RegionRouteV {
                    region: rv[i as int].region,
                    leader_peer: Some(candidate@),
                    follower_peers: rv[i as int].follower_peers,
                }));
            }
            out.push(updated);
            done = true;
            proof {
                assert(routes_view(out@) =~= rv.subrange(0, i + 1).update(
                    hit,
                    RegionRouteV {
                        region: rv[hit].region,
                        leader_peer: Some(candidate@),
                        follower_peers: rv[hit].follower_peers,
                    },
                ));
            }
        } else {
            out.push(route.clone());
            proof {
                assert(out@.len() == i + 1);
                assert(out@[i as int]@ == rv[i as int]);
                assert(forall|j: int| 0 <= j < i ==> #[trigger] out@[j]@ == out0[j]);
                if done {
                    let target = rv.subrange(0, i + 1).update(
                        hit,
                        RegionRouteV {
                            region: rv[hit].region,
                            leader_peer: Some(candidate@),
                            follower_peers: rv[hit].follower_peers,
                        },
                    );
                    assert forall|j: int| 0 <= j < i + 1 implies #[trigger] routes_view(out@)[j]
                        == target[j] by {
                        if j < i {
                            assert(out0[j] == rv.subrange(0, i as int).update(
                                hit,
                                RegionRouteV {
                                    region: rv[hit].region,
                                    leader_peer: Some(candidate@),
                                    follower_peers: rv[hit].follower_peers,
                                },
                            )[j]);
                        }
                    }
                    assert(routes_view(out@) =~= target);
                } else {
                    assert(routes_view(out@) =~= rv.subrange(0, i + 1));
                }
            }
        }
        i = i + 1;
    }
    proof {
        assert(rv.subrange(0, rv.len() as int) =~= rv);
        if !done {
            lemma_first_hit_unique(pred, rv, rv.len() as int);
        }
    }
    out
}

/// The update-metadata step of the failover procedure, carrying the
/// elected candidate peer.
#[derive(Debug)]
pub struct UpdateRegionMetadata {
    pub candidate: Peer,
}

impl UpdateRegionMetadata {
    pub fn new(candidate: Peer) -> (r: Self)
        ensures
            r.candidate@ == candidate@,
    {
        UpdateRegionMetadata { candidate }
    }

    /// Reassigns the failed region's leadership in the stored table
    /// route, through the store's compare-and-set.
    pub fn update_table_route(
        &self,
        store: &mut MetadataStore,
        failed_region: &RegionIdent,
    ) -> (r: Result<(), MetaError>)
        requires
            old(store).wf(),
        ensures
            final(store).wf(),
            ({
                let tid = failed_region.table_ident.table_id;
                match r {
                    Ok(()) => {
                        &&& old(store)@.dom().contains(tid)
                        &&& old(store)@[tid].version < u64::MAX
                        &&& final(store)@ == old(store)@.insert(
                            tid,
                            TableRouteValueV {
                                version: (old(store)@[tid].version + 1) as u64,
                                region_routes: set_leader(
                                    old(store)@[tid].region_routes,
                                    failed_region.region_number,
                                    self.candidate@,
                                ),
                            },
                        )
                    },
                    Err(MetaError::TableRouteNotFound { table_id: t }) => {
                        &&& t == tid
                        &&& !old(store)@.dom().contains(tid)
                        &&& final(store)@ == old(store)@
                    },
                    Err(MetaError::UpdateTableRoute { table_id: t }) => {
                        &&& t == tid
                        &&& old(store)@.dom().contains(tid)
                        &&& old(store)@[tid].version == u64::MAX
                        &&& final(store)@ == old(store)@
                    },
                    Err(_) => false,
                }
            }),
    {
        let table_id = failed_region.table_ident.table_id;
        let previous = match store.get_table_route(table_id) {
            Some(v) => v.clone(),
            None => {
                return Err(MetaError::TableRouteNotFound { table_id });
            },
        };
        let new_region_routes = set_leader_routes(
            &previous.region_routes,
            failed_region.region_number,
            &self.candidate,
        );
        store.update_table_route(table_id, &previous, new_region_routes)
    }

    /// Takes the table's metadata lock, updates the table route, and
    /// releases the lock on every path. A busy lock surfaces as
    /// `RetryLater`.
    pub fn update_metadata(
        &self,
        lock: &mut DistLock,
        store: &mut MetadataStore,
        failed_region: &RegionIdent,
    ) -> (r: Result<(), MetaError>)
        requires
            old(lock).wf(),
            old(lock).next_fencing < u64::MAX,
            old(store).wf(),
        ensures
            final(lock).wf(),
            final(store).wf(),
            forall|k: u64| final(lock).spec_is_held(k) == old(lock).spec_is_held(k),
            ({
                let tid = failed_region.table_ident.table_id;
                let key = spec_table_metadata_lock_key(failed_region);
                match r {
                    Ok(()) => {
                        &&& !old(lock).spec_is_held(key)
                        &&& old(store)@.dom().contains(tid)
                        &&& old(store)@[tid].version < u64::MAX
                        &&& final(store)@ == old(store)@.insert(
                            tid,
                            TableRouteValueV {
                                version: (old(store)@[tid].version + 1) as u64,
                                region_routes: set_leader(
                                    old(store)@[tid].region_routes,
                                    failed_region.region_number,
                                    self.candidate@,
                                ),
                            },
                        )
                    },
                    Err(MetaError::RetryLater) => old(lock).spec_is_held(key) && final(store)@
                        == old(store)@,
                    Err(MetaError::TableRouteNotFound { table_id: t }) => {
                        &&& t == tid
                        &&& !old(store)@.dom().contains(tid)
                        &&& final(store)@ == old(store)@
                    },
                    Err(MetaError::UpdateTableRoute { table_id: t }) => {
                        &&& t == tid
                        &&& old(store)@.dom().contains(tid)
                        &&& old(store)@[tid].version == u64::MAX
                        &&& final(store)@ == old(store)@
                    },
                }
            }),
    {
        let key = table_metadata_lock_key(failed_region);
        let token = match lock.lock(key) {
            Some(t) => t,
            None => {
                return Err(MetaError::RetryLater);
            },
        };
        let ghost mid = *lock;
        let result = self.update_table_route(store, failed_region);
        lock.unlock(token);
        proof {
            assert forall|k: u64|
                final(lock).spec_is_held(k) == old(lock).spec_is_held(k) by {
                if k != key {
                    assert(lock.spec_is_held(k) == mid.spec_is_held(k));
                    if old(lock).held@.contains(k) {
                        let j = choose|j: int|
                            0 <= j < old(lock).held@.len() && old(lock).held@[j] == k;
                        assert(mid.held@[j] == k);
                    }
                    if mid.held@.contains(k) {
                        let j = choose|j: int| 0 <= j < mid.held@.len() && mid.held@[j] == k;
                        assert(j < mid.held@.len() - 1);
                        assert(old(lock).held@[j] == k);
                    }
                }
            }
        }
        result
    }
}

/// The states of one region failover procedure, in the order they are
/// entered; each variant's payload is what the step needs, so the whole
/// is persisted as a tagged value and resumed after a crash.
#[derive(Debug)]
pub enum FailoverState {
    /// A region's leader was detected unavailable.
    Detected,
    /// A candidate host is being elected.
    ElectCandidate,
    /// The elected candidate is written into the table route.
    UpdateRegionMetadata(UpdateRegionMetadata),
    /// Routing caches are told to drop the stale route.
    InvalidateCache,
    /// The failover is complete.
    Done,
}

impl UpdateRegionMetadata {
    /// Runs the update step and names the state that follows: cache
    /// invalidation on success, and `RetryLater` — re-entering this
    /// same state — on any failure.
    pub fn next(
        self,
        lock: &mut DistLock,
        store: &mut MetadataStore,
        failed_region: &RegionIdent,
    ) -> (r: Result<FailoverState, MetaError>)
        requires
            old(lock).wf(),
            old(lock).next_fencing < u64::MAX,
            old(store).wf(),
        ensures
            final(lock).wf(),
            final(store).wf(),
            forall|k: u64| final(lock).spec_is_held(k) == old(lock).spec_is_held(k),
            ({
                let tid = failed_region.table_ident.table_id;
                let key = spec_table_metadata_lock_key(failed_region);
                match r {
                    Ok(next_state) => {
                        &&& next_state is InvalidateCache
                        &&& !old(lock).spec_is_held(key)
                        &&& old(store)@.dom().contains(tid)
                        &&& old(store)@[tid].version < u64::MAX
                        &&& final(store)@ == old(store)@.insert(
                            tid,
                            TableRouteValueV {
                                version: (old(store)@[tid].version + 1) as u64,
                                region_routes: set_leader(
                                    old(store)@[tid].region_routes,
                                    failed_region.region_number,
                                    self.candidate@,
                                ),
                            },
                        )
                    },
                    Err(e) => e is RetryLater && final(store)@ == old(store)@ && (old(
                        lock,
                    ).spec_is_held(key) || !old(store)@.dom().contains(tid) || old(
                        store,
                    )@[tid].version == u64::MAX),
                }
            }),
    {
        match self.update_metadata(lock, store, failed_region) {
            Ok(()) => Ok(FailoverState::InvalidateCache),
            Err(_) => Err(MetaError::RetryLater),
        }
    }
}

/// Runs the cache-invalidation step: the stale route leaves the
/// router's cache — repeated delivery lands on `invalidate_table_route`
/// being idempotent — and the procedure is done.
pub fn next_invalidate_cache(
    manager: &mut crate::manager::PartitionRuleManager,
    table_id: TableId,
) -> (r: FailoverState)
    requires
        old(manager).wf(),
    ensures
        final(manager).wf(),
        final(manager).table_routes.store == old(manager).table_routes.store,
        final(manager).table_routes.cache_map() == old(manager).table_routes.cache_map().remove(
            table_id,
        ),
        r is Done,
{
    manager.invalidate_table_route(table_id);
    FailoverState::Done
}

/// Error as the procedure runner sees it: transient errors re-enter the
/// same state after backoff, all others abort the procedure.
#[derive(Clone, Copy, PartialEq, Eq, Structural, Debug)]
pub enum ProcedureError {
    RetryLater(MetaError),
    External(MetaError),
}

/// What a request to a datanode can fail with, as far as the failover
/// policy reads it: a transport failure on the data channel, or
/// anything else.
#[derive(Clone, Copy, PartialEq, Eq, Structural, Debug)]
pub enum DatanodeResponseError {
    /// The data channel to the node broke mid-request.
    FlightGet,
    /// Any other failure of the request.
    Other,
}

/// How a failed datanode request is surfaced.
#[derive(Clone, Copy, PartialEq, Eq, Structural, Debug)]
pub enum RequestError {
    /// Transient: the operation is retried after backoff.
    RetryLater,
    /// The request failed on the named datanode.
    RequestDatanode { datanode_id: u64 },
}

/// Classifies the failure of a request to a datanode: a broken data
/// channel is transient and retried; everything else is pinned on the
/// node.
pub fn handle_request_datanode_error(datanode: &Peer, e: DatanodeResponseError) -> (r:
    RequestError)
    ensures
        e is FlightGet ==> r == RequestError::RetryLater,
        !(e is FlightGet) ==> r == (RequestError::RequestDatanode { datanode_id: datanode.id }),
{
    match e {
        DatanodeResponseError::FlightGet => RequestError::RetryLater,
        DatanodeResponseError::Other => RequestError::RequestDatanode {
            datanode_id: datanode.id,
        },
    }
}

/// Classifies a step's error for the procedure runner: `RetryLater`
/// stays retryable, everything else is external and fatal.
pub fn handle_retry_error(e: MetaError) -> (r: ProcedureError)
    ensures
        crate::meta::spec_is_retryable(e) ==> r == ProcedureError::RetryLater(e),
        !crate::meta::spec_is_retryable(e) ==> r == ProcedureError::External(e),
{
    match e {
        MetaError::RetryLater => ProcedureError::RetryLater(e),
        _ => ProcedureError::External(e),
    }
}

/// Re-running the update step leaves the routes as one run leaves them:
/// recovery after a crash between persisting the state and advancing it
/// converges to the same table route.
pub proof fn lemma_failover_idempotent(
    routes: Seq<RegionRouteV>,
    region_number: RegionNumber,
    candidate: PeerV,
)
    ensures
        set_leader(set_leader(routes, region_number, candidate), region_number, candidate)
            == set_leader(routes, region_number, candidate),
{
    let pred = region_pred(region_number);
    let once = set_leader(routes, region_number, candidate);
    lemma_first_hit_char(pred, routes);
    let h = first_hit(pred, routes);
    if h < routes.len() {
        assert(forall|j: int| 0 <= j < routes.len() ==> pred(#[trigger] once[j]) == pred(
            #[trigger] routes[j],
        ));
        lemma_first_hit_pointwise(pred, once, routes);
        assert(set_leader(once, region_number, candidate) =~= once);
    }
}

/// Two failovers of different regions of one table both land: neither
/// update is lost, whichever order the lock serializes them in, and
/// every other route is untouched.
pub proof fn lemma_failover_no_lost_update(
    routes: Seq<RegionRouteV>,
    n1: RegionNumber,
    c1: PeerV,
    n2: RegionNumber,
    c2: PeerV,
)
    requires
        n1 != n2,
    ensures
        set_leader(set_leader(routes, n1, c1), n2, c2) == set_leader(
            set_leader(routes, n2, c2),
            n1,
            c1,
        ),
        ({
            let both = set_leader(set_leader(routes, n1, c1), n2, c2);
            let h1 = first_hit(region_pred(n1), routes);
            let h2 = first_hit(region_pred(n2), routes);
            &&& both.len() == routes.len()
            &&& h1 < routes.len() ==> both[h1] == (RegionRouteV {
                region: routes[h1].region,
                leader_peer: Some(c1),
                follower_peers: routes[h1].follower_peers,
            })
            &&& h2 < routes.len() ==> both[h2] == (RegionRouteV {
                region: routes[h2].region,
                leader_peer: Some(c2),
                follower_peers: routes[h2].follower_peers,
            })
            &&& forall|j: int|
                0 <= j < routes.len() && j != h1 && j != h2 ==> #[trigger] both[j] == routes[j]
        }),
{
    let p1 = region_pred(n1);
    let p2 = region_pred(n2);
    let once1 = set_leader(routes, n1, c1);
    let once2 = set_leader(routes, n2, c2);
    lemma_first_hit_char(p1, routes);
    lemma_first_hit_char(p2, routes);
    let h1 = first_hit(p1, routes);
    let h2 = first_hit(p2, routes);
    if h1 < routes.len() {
        assert(forall|j: int| 0 <= j < routes.len() ==> p2(#[trigger] once1[j]) == p2(
            #[trigger] routes[j],
        ));
        lemma_first_hit_pointwise(p2, once1, routes);
    }
    if h2 < routes.len() {
        assert(forall|j: int| 0 <= j < routes.len() ==> p1(#[trigger] once2[j]) == p1(
            #[trigger] routes[j],
        ));
        lemma_first_hit_pointwise(p1, once2, routes);
    }
    if h1 < routes.len() && h2 < routes.len() {
        assert(p1(routes[h1]));
        assert(p2(routes[h2]));
        assert(h1 != h2);
    }
    assert(set_leader(once1, n2, c2) =~= set_leader(once2, n1, c1));
}

} // verus!
