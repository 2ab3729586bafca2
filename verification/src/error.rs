//! Errors surfaced by the partition layer: route lookups, rule
//! construction and filter-based region lookups.

use vstd::prelude::*;

use crate::storage::{RegionNumber, TableId};

verus! {

/// Error of a partition-layer operation. Every variant is surfaced to
/// the caller; none is retried.
#[derive(Clone, Copy, PartialEq, Eq, Structural, Debug)]
pub enum PartitionError {
    /// A region of the table has no leader peer.
    FindLeader { region_id: u64, table_id: TableId },
    /// A requested region has no leader peer to address a write to.
    FindDatanode { table_id: TableId, region: RegionNumber },
    /// The table has no route entry, or its route has no regions.
    FindTableRoutes { table_id: TableId },
    /// A region route carries no partition definition.
    FindRegionRoutes { region_id: u64, table_id: TableId },
    /// The regions of one table disagree on their partition columns.
    InvalidTableRouteData { table_id: TableId },
    /// No region can satisfy the given filters.
    FindRegions,
}

} // verus!
