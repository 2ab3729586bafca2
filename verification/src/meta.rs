//! The metadata store's table-route contract: versioned route values
//! keyed by table id, read by routers and updated by failover through
//! an atomic compare-and-set.

use vstd::prelude::*;

use vstd::pervasive::VecAdditionalExecFns;

use crate::route::{clone_routes, routes_view, RegionRoute, RegionRouteV};
use crate::seqs::{assoc_distinct_keys, assoc_map, lemma_assoc_map_props, lemma_assoc_map_update};
use crate::storage::TableId;

verus! {

/// Mathematical model of a [`TableRouteValue`].
pub struct TableRouteValueV {
    pub version: u64,
    pub region_routes: Seq<RegionRouteV>,
}

/// The stored route value of one table: its region routes and the
/// version that the store's compare-and-set checks.
pub struct TableRouteValue {
    pub version: u64,
    pub region_routes: Vec<RegionRoute>,
}

impl View for TableRouteValue {
    type V = TableRouteValueV;

    open spec fn view(&self) -> TableRouteValueV {
        TableRouteValueV { version: self.version, region_routes: routes_view(self.region_routes@) }
    }
}

impl Clone for TableRouteValue {
    fn clone(&self) -> (r: Self)
        ensures
            r@ == self@,
    {
        TableRouteValue { version: self.version, region_routes: clone_routes(&self.region_routes) }
    }
}

/// Error of a metadata operation. `RetryLater` is transient: the
/// procedure re-enters the same state; the others are fatal.
#[derive(Clone, Copy, PartialEq, Eq, Structural, Debug)]
pub enum MetaError {
    /// The table has no stored route value.
    TableRouteNotFound { table_id: TableId },
    /// The compare-and-set on the table route did not go through.
    UpdateTableRoute { table_id: TableId },
    /// Transient failure; retry the same step after backoff.
    RetryLater,
}

/// Whether an error re-enters the same procedure state.
pub open spec fn spec_is_retryable(e: MetaError) -> bool {
    e is RetryLater
}

pub fn is_retryable(e: &MetaError) -> (r: bool)
    ensures
        r == spec_is_retryable(*e),
{
    match e {
        MetaError::RetryLater => true,
        _ => false,
    }
}

/// In-memory model of the metadata store's table-route table.
pub struct MetadataStore {
    pub tables: Vec<(TableId, TableRouteValue)>,
}

impl View for MetadataStore {
    type V = Map<TableId, TableRouteValueV>;

    open spec fn view(&self) -> Map<TableId, TableRouteValueV> {
        assoc_map(self.tables@)
    }
}

impl MetadataStore {
    /// Each table id occurs once.
    pub open spec fn wf(&self) -> bool {
        assoc_distinct_keys(self.tables@)
    }

    pub fn new() -> (r: Self)
        ensures
            r.wf(),
            r@ == Map::<TableId, TableRouteValueV>::empty(),
    {
        MetadataStore { tables: Vec::new() }
    }

    /// Index of the table's entry, if it has one.
    fn find_index(&self, table_id: TableId) -> (r: Option<usize>)
        ensures
            match r {
                Some(i) => i < self.tables@.len() && (self.tables@[i as int]).0 == table_id,
                None => forall|j: int|
                    0 <= j < self.tables@.len() ==> (#[trigger] self.tables@[j]).0 != table_id,
            },
    {
        let mut i: usize = 0;
        while i < self.tables.len()
            invariant
                i <= self.tables@.len(),
                forall|j: int| 0 <= j < i ==> (#[trigger] self.tables@[j]).0 != table_id,
            decreases self.tables@.len() - i,
        {
            if self.tables[i].0 == table_id {
                return Some(i);
            }
            i = i + 1;
        }
        None
    }

    /// The stored route value of the table, if any.
    pub fn get_table_route(&self, table_id: TableId) -> (r: Option<&TableRouteValue>)
        requires
            self.wf(),
        ensures
            match r {
                Some(v) => self@.dom().contains(table_id) && v@ == self@[table_id],
                None => !self@.dom().contains(table_id),
            },
    {
        proof {
            lemma_assoc_map_props(self.tables@);
        }
        match self.find_index(table_id) {
            Some(i) => {
                proof {
                    assert((self.tables@[i as int]).0 == table_id);
                }
                Some(&self.tables[i].1)
            },
            None => {
                proof {
                    if self@.dom().contains(table_id) {
                        let j = choose|j: int|
                            0 <= j < self.tables@.len() && (#[trigger] self.tables@[j]).0
                                == table_id;
                    }
                }
                None
            },
        }
    }

    /// Stores the route value of a table, replacing any previous one.
    pub fn put_table_route(&mut self, table_id: TableId, value: TableRouteValue)
        requires
            old(self).wf(),
        ensures
            final(self).wf(),
            final(self)@ == old(self)@.insert(table_id, value@),
    {
        proof {
            lemma_assoc_map_props(self.tables@);
        }
        match self.find_index(table_id) {
            Some(i) => {
                let ghost tables0 = self.tables@;
                self.tables.set(i, (table_id, value));
                proof {
                    assert(tables0.update(i as int, self.tables@[i as int]) =~= self.tables@);
                    assert(self.tables@[i as int] == (
                        (tables0[i as int]).0,
                        self.tables@[i as int].1,
                    ));
                    lemma_assoc_map_update(tables0, i as int, self.tables@[i as int].1);
                }
            },
            None => {
                let ghost tables0 = self.tables@;
                self.tables.push((table_id, value));
                proof {
                    assert(self.tables@.drop_last() =~= tables0);
                    assert forall|a: int, b: int|
                        0 <= a < b < self.tables@.len() implies (#[trigger] self.tables@[a]).0 != (
                        #[trigger] self.tables@[b]).0 by {
                        if b == self.tables@.len() - 1 {
                            assert((tables0[a]).0 != table_id);
                        }
                    }
                }
            },
        }
    }

    /// Removes the route value of a table; removing an absent one does
    /// nothing.
    pub fn delete_table_route(&mut self, table_id: TableId)
        requires
            old(self).wf(),
        ensures
            final(self).wf(),
            final(self)@ == old(self)@.remove(table_id),
    {
        proof {
            lemma_assoc_map_props(self.tables@);
        }
        match self.find_index(table_id) {
            Some(i) => {
                let ghost tables0 = self.tables@;
                let _ = self.tables.remove(i);
                proof {
                    assert(self.tables@ =~= tables0.remove(i as int));
                    assert(forall|j: int|
                        0 <= j < i ==> #[trigger] self.tables@[j] == tables0[j]);
                    assert(forall|j: int|
                        i <= j < self.tables@.len() ==> #[trigger] self.tables@[j] == tables0[j
                            + 1]);
                    assert(assoc_distinct_keys(self.tables@));
                    lemma_assoc_map_props(self.tables@);
                    assert forall|k: TableId| #[trigger]
                        assoc_map(self.tables@).dom().contains(k) implies old(
                        self,
                    )@.remove(table_id).dom().contains(k) by {
                        let j = choose|j: int|
                            0 <= j < self.tables@.len() && (#[trigger] self.tables@[j]).0 == k;
                        if j < i {
                            assert((tables0[j]).0 == k);
                        } else {
                            assert((tables0[j + 1]).0 == k);
                        }
                    }
                    assert forall|k: TableId|
                        old(self)@.remove(table_id).dom().contains(k) implies #[trigger] assoc_map(
                        self.tables@,
                    ).dom().contains(k) by {
                        let j = choose|j: int|
                            0 <= j < tables0.len() && (#[trigger] tables0[j]).0 == k;
                        if j < i {
                            assert((self.tables@[j]).0 == k);
                        } else {
                            assert(j != i);
                            assert((self.tables@[j - 1]).0 == k);
                        }
                    }
                    assert forall|k: TableId| #[trigger]
                        assoc_map(self.tables@).dom().contains(k) implies assoc_map(self.tables@)[k]
                        == old(self)@.remove(table_id)[k] by {
                        let j = choose|j: int|
                            0 <= j < self.tables@.len() && (#[trigger] self.tables@[j]).0 == k;
                        assert(assoc_map(self.tables@)[(self.tables@[j]).0]
                            == self.tables@[j].1@);
                        if j < i {
                            assert(tables0[j] == self.tables@[j]);
                            assert(assoc_map(tables0)[(tables0[j]).0] == tables0[j].1@);
                        } else {
                            assert(tables0[j + 1] == self.tables@[j]);
                            assert(assoc_map(tables0)[(tables0[j + 1]).0] == tables0[j + 1].1@);
                        }
                    }
                    assert(final(self)@ =~= old(self)@.remove(table_id));
                }
            },
            None => {
                proof {
                    if self@.dom().contains(table_id) {
                        let j = choose|j: int|
                            0 <= j < self.tables@.len() && (#[trigger] self.tables@[j]).0
                                == table_id;
                    }
                    assert(final(self)@ =~= old(self)@.remove(table_id));
                }
            },
        }
    }

    /// Atomic compare-and-set of a table's route value: the new routes
    /// are stored, with the version advanced, exactly when the stored
    /// version still equals `previous`'s.
    pub fn update_table_route(
        &mut self,
        table_id: TableId,
        previous: &TableRouteValue,
        new_region_routes: Vec<RegionRoute>,
    ) -> (r: Result<(), MetaError>)
        requires
            old(self).wf(),
        ensures
            final(self).wf(),
            match r {
                Ok(()) => {
                    &&& old(self)@.dom().contains(table_id)
                    &&& old(self)@[table_id].version == previous.version
                    &&& previous.version < u64::MAX
                    &&& final(self)@ == old(self)@.insert(
                        table_id,
                        TableRouteValueV {
                            version: (previous.version + 1) as u64,
                            region_routes: routes_view(new_region_routes@),
                        },
                    )
                },
                Err(MetaError::TableRouteNotFound { table_id: t }) => {
                    &&& t == table_id
                    &&& !old(self)@.dom().contains(table_id)
                    &&& final(self)@ == old(self)@
                },
                Err(MetaError::UpdateTableRoute { table_id: t }) => {
                    &&& t == table_id
                    &&& old(self)@.dom().contains(table_id)
                    &&& (old(self)@[table_id].version != previous.version || previous.version
                        == u64::MAX)
                    &&& final(self)@ == old(self)@
                },
                Err(_) => false,
            },
    {
        proof {
            lemma_assoc_map_props(self.tables@);
        }
        match self.find_index(table_id) {
            Some(i) => {
                proof {
                    assert((self.tables@[i as int]).0 == table_id);
                }
                if self.tables[i].1.version != previous.version
                    || previous.version == u64::MAX {
                    return Err(MetaError::UpdateTableRoute { table_id });
                }
                let ghost tables0 = self.tables@;
                let value = TableRouteValue {
                    version: previous.version + 1,
                    region_routes: new_region_routes,
                };
                self.tables.set(i, (table_id, value));
                proof {
                    assert(tables0.update(i as int, self.tables@[i as int]) =~= self.tables@);
                    lemma_assoc_map_update(tables0, i as int, self.tables@[i as int].1);
                }
                Ok(())
            },
            None => {
                proof {
                    if self@.dom().contains(table_id) {
                        let j = choose|j: int|
                            0 <= j < self.tables@.len() && (#[trigger] self.tables@[j]).0
                                == table_id;
                    }
                }
                Err(MetaError::TableRouteNotFound { table_id })
            },
        }
    }
}

} // verus!
