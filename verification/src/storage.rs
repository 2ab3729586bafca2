//! Region identity: a 64-bit region id composed of a table id and a
//! region number within that table.

use vstd::prelude::*;

verus! {

/// Number of a region within one table.
pub type RegionNumber = u32;

/// Identifier of a table.
pub type TableId = u32;

/// Identity of a region: the table id in the upper half, the region
/// number within the table in the lower half.
#[derive(Clone, Copy, PartialEq, Eq, Structural, Debug, Hash)]
pub struct RegionId {
    pub id: u64,
}

impl RegionId {
    /// The composed 64-bit value.
    pub open spec fn spec_as_u64(self) -> u64 {
        self.id
    }

    pub open spec fn spec_table_id(self) -> TableId {
        (self.id / 0x1_0000_0000) as u32
    }

    pub open spec fn spec_region_number(self) -> RegionNumber {
        (self.id % 0x1_0000_0000) as u32
    }

    pub fn new(table_id: TableId, region_number: RegionNumber) -> (r: RegionId)
        ensures
            r.spec_table_id() == table_id,
            r.spec_region_number() == region_number,
            r.spec_as_u64() == table_id as u64 * 0x1_0000_0000 + region_number as u64,
    {
        RegionId { id: table_id as u64 * 0x1_0000_0000 + region_number as u64 }
    }

    /// Rebuild a region id from its composed 64-bit value.
    pub fn from_u64(id: u64) -> (r: RegionId)
        ensures
            r.spec_as_u64() == id,
    {
        RegionId { id }
    }

    pub fn as_u64(&self) -> (r: u64)
        ensures
            r == self.spec_as_u64(),
    {
        self.id
    }

    pub fn table_id(&self) -> (r: TableId)
        ensures
            r == self.spec_table_id(),
    {
        (self.id / 0x1_0000_0000) as u32
    }

    pub fn region_number(&self) -> (r: RegionNumber)
        ensures
            r == self.spec_region_number(),
    {
        (self.id % 0x1_0000_0000) as u32
    }
}

} // verus!
