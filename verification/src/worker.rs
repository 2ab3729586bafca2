//! The region worker: single owner of a set of regions, handling
//! create, open, close and write requests strictly in arrival order.
//! Once stopped, every further request fails with `WorkerStopped`;
//! closed regions keep their on-disk data and may be reopened.

use vstd::prelude::*;

use vstd::pervasive::VecAdditionalExecFns;

use crate::memtable::{
    DefaultMemtableBuilder, EmptyMemtable, KeyValues, Memtable, MemtableBuilder,
};
use crate::metadata::{check_metadata, valid_metadata, ColumnMetadata, RegionMetadata,
    RegionMetadataV};
use crate::row::{schema_view, ColumnSchemaV, Rows};
use crate::seqs::{assoc_distinct_keys, assoc_map, lemma_assoc_map_props, lemma_assoc_map_update};
use crate::storage::RegionId;

verus! {

/// Error of a region request, returned on the request's reply channel.
#[derive(Clone, Copy, PartialEq, Eq, Structural, Debug)]
pub enum WorkerError {
    /// The region already exists and the create request did not allow
    /// that.
    RegionExists { region_id: u64 },
    /// The region is not open here, or there is no data to open at the
    /// given directory.
    RegionNotFound { region_id: u64 },
    /// The create request's metadata does not build a valid region.
    InvalidMetadata,
    /// The worker was stopped; it accepts no further requests.
    WorkerStopped,
}

/// Request to create a region.
pub struct RegionCreateRequest {
    pub column_metadatas: Vec<ColumnMetadata>,
    pub primary_key: Vec<u64>,
    pub create_if_not_exists: bool,
    pub region_dir: String,
}

/// Request to open a region from existing on-disk data.
pub struct RegionOpenRequest {
    pub engine: String,
    pub region_dir: String,
}

/// Request to close a region.
pub struct RegionCloseRequest {}

/// Request to write a batch into a region.
pub struct RegionWriteRequest {
    pub rows: Rows,
}

/// A request the worker's mailbox carries.
pub enum RegionRequest {
    Create(RegionCreateRequest),
    Open(RegionOpenRequest),
    Close(RegionCloseRequest),
    Write(RegionWriteRequest),
}

/// Mathematical model of an [`OpenRegion`].
pub struct OpenRegionV {
    pub region_id: u64,
    pub metadata: RegionMetadataV,
    pub memtable_id: u32,
    pub region_dir: Seq<char>,
}

/// An open region: its metadata, its active memtable and the directory
/// its data lives under.
pub struct OpenRegion {
    pub region_id: RegionId,
    pub metadata: RegionMetadata,
    pub memtable: EmptyMemtable,
    pub region_dir: String,
}

impl View for OpenRegion {
    type V = OpenRegionV;

    open spec fn view(&self) -> OpenRegionV {
        OpenRegionV {
            region_id: self.region_id.spec_as_u64(),
            metadata: self.metadata@,
            memtable_id: self.memtable.mem_id_spec(),
            region_dir: self.region_dir@,
        }
    }
}

/// Model of the object store under the worker: the directories that
/// hold a created region's data, with the metadata recovered on open.
pub struct ObjectStore {
    pub entries: Vec<(String, RegionMetadata)>,
}

impl ObjectStore {
    /// The metadata stored under a directory, if the directory holds
    /// region data.
    pub open spec fn spec_dir(&self, dir: Seq<char>) -> Option<RegionMetadataV> {
        if exists|i: int|
            0 <= i < self.entries@.len() && (#[trigger] self.entries@[i]).0@ == dir {
            Some(
                self.entries@[choose|i: int|
                    0 <= i < self.entries@.len() && (#[trigger] self.entries@[i]).0@ == dir].1@,
            )
        } else {
            None
        }
    }

    /// Directory names occur once each.
    pub open spec fn wf(&self) -> bool {
        forall|i: int, j: int|
            0 <= i < j < self.entries@.len() ==> (#[trigger] self.entries@[i]).0@ != (
            #[trigger] self.entries@[j]).0@
    }

    pub fn new() -> (r: Self)
        ensures
            r.wf(),
            forall|d: Seq<char>| r.spec_dir(d) is None,
    {
        ObjectStore { entries: Vec::new() }
    }

    /// With distinct directories, the entry at an index is what its
    /// directory resolves to.
    proof fn lemma_dir_at(&self, i: int)
        requires
            self.wf(),
            0 <= i < self.entries@.len(),
        ensures
            self.spec_dir((self.entries@[i]).0@) == Some(self.entries@[i].1@),
    {
        let d = (self.entries@[i]).0@;
        assert(exists|j: int|
            0 <= j < self.entries@.len() && (#[trigger] self.entries@[j]).0@ == d);
        let j = choose|j: int|
            0 <= j < self.entries@.len() && (#[trigger] self.entries@[j]).0@ == d;
        if j != i {
            if j < i {
                assert((self.entries@[j]).0@ != (self.entries@[i]).0@);
            } else {
                assert((self.entries@[i]).0@ != (self.entries@[j]).0@);
            }
        }
    }

    /// A directory no entry carries resolves to nothing.
    proof fn lemma_dir_absent(&self, d: Seq<char>)
        requires
            forall|j: int| 0 <= j < self.entries@.len() ==> (#[trigger] self.entries@[j]).0@ != d,
        ensures
            self.spec_dir(d) is None,
    {
        if exists|j: int| 0 <= j < self.entries@.len() && (#[trigger] self.entries@[j]).0@ == d {
            let j = choose|j: int|
                0 <= j < self.entries@.len() && (#[trigger] self.entries@[j]).0@ == d;
        }
    }

    /// The metadata stored under a directory.
    pub fn get(&self, dir: &String) -> (r: Option<&RegionMetadata>)
        requires
            self.wf(),
        ensures
            match r {
                Some(m) => self.spec_dir(dir@) == Some(m@),
                None => self.spec_dir(dir@) is None,
            },
    {
        match self.find_dir(dir) {
            Some(i) => {
                proof {
                    self.lemma_dir_at(i as int);
                }
                Some(&self.entries[i].1)
            },
            None => {
                proof {
                    self.lemma_dir_absent(dir@);
                }
                None
            },
        }
    }

    /// Stores metadata under a directory, replacing what was there.
    pub fn put(&mut self, dir: String, metadata: RegionMetadata)
        requires
            old(self).wf(),
        ensures
            final(self).wf(),
            final(self).spec_dir(dir@) == Some(metadata@),
            forall|d: Seq<char>|
                d != dir@ ==> final(self).spec_dir(d) == old(self).spec_dir(d),
    {
        let ghost entries0 = self.entries@;
        let ghost mv = metadata@;
        let ghost dv = dir@;
        match self.find_dir(&dir) {
            Some(i) => {
                self.entries.set(i, (dir, metadata));
                proof {
                    assert(self.entries@ =~= entries0.update(i as int, self.entries@[i as int]));
                    assert((self.entries@[i as int]).0@ == dv);
                    assert(self.entries@[i as int].1@ == mv);
                    assert forall|a: int, b: int|
                        0 <= a < b < self.entries@.len() implies (#[trigger] self.entries@[a]).0@
                        != (#[trigger] self.entries@[b]).0@ by {
                        assert((entries0[a]).0@ != (entries0[b]).0@);
                        if a != i && b != i {
                            assert(self.entries@[a] == entries0[a]);
                            assert(self.entries@[b] == entries0[b]);
                        } else if a == i {
                            assert(self.entries@[b] == entries0[b]);
                            assert((entries0[i as int]).0@ == dv);
                        } else {
                            assert(self.entries@[a] == entries0[a]);
                            assert((entries0[i as int]).0@ == dv);
                        }
                    }
                    self.lemma_dir_at(i as int);
                    assert forall|d: Seq<char>|
                        d != dv implies final(self).spec_dir(d) == old(self).spec_dir(d) by {
                        self.lemma_spec_dir_frame(old(self), i as int, d);
                    }
                }
            },
            None => {
                self.entries.push((dir, metadata));
                proof {
                    assert(self.entries@.drop_last() =~= entries0);
                    assert forall|a: int, b: int|
                        0 <= a < b < self.entries@.len() implies (#[trigger] self.entries@[a]).0@
                        != (#[trigger] self.entries@[b]).0@ by {
                        if b == self.entries@.len() - 1 {
                            assert((entries0[a]).0@ != dv);
                        }
                    }
                    self.lemma_dir_at(self.entries@.len() - 1);
                    assert forall|d: Seq<char>|
                        d != dv implies final(self).spec_dir(d) == old(self).spec_dir(d) by {
                        if exists|j: int|
                            0 <= j < entries0.len() && (#[trigger] entries0[j]).0@ == d {
                            let j = choose|j: int|
                                0 <= j < entries0.len() && (#[trigger] entries0[j]).0@ == d;
                            old(self).lemma_dir_at(j);
                            assert((self.entries@[j]).0@ == d);
                            self.lemma_dir_at(j);
                        } else {
                            old(self).lemma_dir_absent(d);
                            assert forall|j: int|
                                0 <= j < self.entries@.len() implies (
                                #[trigger] self.entries@[j]).0@ != d by {
                                if j < entries0.len() {
                                    assert(entries0[j].0@ != d);
                                }
                            }
                            self.lemma_dir_absent(d);
                        }
                    }
                }
            },
        }
    }

    /// An update at one index that keeps the index's directory leaves
    /// every other directory's resolution as it was.
    proof fn lemma_spec_dir_frame(&self, pre: &ObjectStore, i: int, d: Seq<char>)
        requires
            self.wf(),
            pre.wf(),
            0 <= i < pre.entries@.len(),
            self.entries@.len() == pre.entries@.len(),
            forall|j: int|
                0 <= j < pre.entries@.len() && j != i ==> #[trigger] self.entries@[j]
                    == pre.entries@[j],
            (self.entries@[i]).0@ == (pre.entries@[i]).0@,
            d != (pre.entries@[i]).0@,
        ensures
            self.spec_dir(d) == pre.spec_dir(d),
    {
        if exists|j: int| 0 <= j < pre.entries@.len() && (#[trigger] pre.entries@[j]).0@ == d {
            let j = choose|j: int|
                0 <= j < pre.entries@.len() && (#[trigger] pre.entries@[j]).0@ == d;
            pre.lemma_dir_at(j);
            assert(j != i);
            assert((self.entries@[j]).0@ == d);
            self.lemma_dir_at(j);
        } else {
            pre.lemma_dir_absent(d);
            assert forall|j: int|
                0 <= j < self.entries@.len() implies (#[trigger] self.entries@[j]).0@ != d by {
                if j != i {
                    assert(pre.entries@[j].0@ != d);
                }
            }
            self.lemma_dir_absent(d);
        }
    }

    /// Index of the entry under a directory, if any.
    fn find_dir(&self, dir: &String) -> (r: Option<usize>)
        ensures
            match r {
                Some(i) => i < self.entries@.len() && (self.entries@[i as int]).0@ == dir@,
                None => forall|j: int|
                    0 <= j < self.entries@.len() ==> (#[trigger] self.entries@[j]).0@ != dir@,
            },
    {
        let mut i: usize = 0;
        while i < self.entries.len()
            invariant
                i <= self.entries@.len(),
                forall|j: int| 0 <= j < i ==> (#[trigger] self.entries@[j]).0@ != dir@,
            decreases self.entries@.len() - i,
        {
            if self.entries[i].0.eq(dir) {
                return Some(i);
            }
            i = i + 1;
        }
        None
    }
}

/// The worker loop's state: whether it still accepts requests, the
/// regions it has open, and the store its regions' data lives in.
pub struct RegionWorkerLoop {
    pub running: bool,
    pub regions: Vec<(u64, OpenRegion)>,
    pub memtable_builder: DefaultMemtableBuilder,
    pub object_store: ObjectStore,
}

impl RegionWorkerLoop {
    /// The open regions, by region id.
    pub open spec fn regions_map(&self) -> Map<u64, OpenRegionV> {
        assoc_map(self.regions@)
    }

    pub open spec fn wf(&self) -> bool {
        assoc_distinct_keys(self.regions@) && self.object_store.wf()
    }

    pub fn new() -> (r: Self)
        ensures
            r.wf(),
            r.running,
            r.regions_map() == Map::<u64, OpenRegionV>::empty(),
            forall|d: Seq<char>| r.object_store.spec_dir(d) is None,
    {
        RegionWorkerLoop {
            running: true,
            regions: Vec::new(),
            memtable_builder: DefaultMemtableBuilder::new(),
            object_store: ObjectStore::new(),
        }
    }

    /// Whether the region is open on this worker.
    pub fn is_region_exists(&self, region_id: RegionId) -> (r: bool)
        requires
            self.wf(),
        ensures
            r == self.regions_map().dom().contains(region_id.spec_as_u64()),
    {
        proof {
            lemma_assoc_map_props(self.regions@);
        }
        let id = region_id.as_u64();
        let mut i: usize = 0;
        while i < self.regions.len()
            invariant
                id == region_id.spec_as_u64(),
                i <= self.regions@.len(),
                forall|j: int| 0 <= j < i ==> (#[trigger] self.regions@[j]).0 != id,
            decreases self.regions@.len() - i,
        {
            if self.regions[i].0 == id {
                proof {
                    lemma_assoc_map_props(self.regions@);
                    assert((self.regions@[i as int]).0 == id);
                }
                return true;
            }
            i = i + 1;
        }
        proof {
            if self.regions_map().dom().contains(id) {
                let j = choose|j: int|
                    0 <= j < self.regions@.len() && (#[trigger] self.regions@[j]).0 == id;
            }
        }
        false
    }

    /// Index of the region's entry, if it is open.
    fn find_region(&self, id: u64) -> (r: Option<usize>)
        ensures
            match r {
                Some(i) => i < self.regions@.len() && (self.regions@[i as int]).0 == id,
                None => forall|j: int|
                    0 <= j < self.regions@.len() ==> (#[trigger] self.regions@[j]).0 != id,
            },
    {
        let mut i: usize = 0;
        while i < self.regions.len()
            invariant
                i <= self.regions@.len(),
                forall|j: int| 0 <= j < i ==> (#[trigger] self.regions@[j]).0 != id,
            decreases self.regions@.len() - i,
    {
            if self.regions[i].0 == id {
                return Some(i);
            }
            i = i + 1;
        }
        None
    }

    /// Stops the worker: open regions are dropped — their on-disk data
    /// remains — and every later request fails with `WorkerStopped`.
    pub fn stop(&mut self)
        requires
            old(self).wf(),
        ensures
            final(self).wf(),
            !final(self).running,
            final(self).regions_map() == Map::<u64, OpenRegionV>::empty(),
            final(self).object_store == old(self).object_store,
    {
        self.running = false;
        self.regions = Vec::new();
    }
}

/// The metadata a create request builds.
pub open spec fn request_meta(req: RegionCreateRequest) -> RegionMetadataV {
    RegionMetadataV {
        column_metadatas: crate::metadata::columns_meta_view(req.column_metadatas@),
        primary_key: req.primary_key@,
    }
}

/// A write batch's schema names the region's columns, in order.
pub open spec fn schema_matches(schema: Seq<ColumnSchemaV>, m: RegionMetadataV) -> bool {
    &&& schema.len() == m.column_metadatas.len()
    &&& forall|i: int|
        0 <= i < schema.len() ==> (#[trigger] schema[i]).column_name == m.column_metadatas[i].name
}

/// What handling a create request does: an existing region is kept —
/// allowed only with `create_if_not_exists` — and a new region is
/// opened from the request's metadata, which must be valid, with its
/// data directory created in the object store.
pub open spec fn create_outcome(
    pre: RegionWorkerLoop,
    post: RegionWorkerLoop,
    r: Result<(), WorkerError>,
    region_id: RegionId,
    req: RegionCreateRequest,
) -> bool {
    let id = region_id.spec_as_u64();
    &&& post.running == pre.running
    &&& match r {
        Ok(()) => if pre.regions_map().dom().contains(id) {
            &&& req.create_if_not_exists
            &&& post.regions_map() == pre.regions_map()
            &&& post.object_store == pre.object_store
        } else {
            &&& valid_metadata(request_meta(req))
            &&& post.regions_map() == pre.regions_map().insert(
                id,
                OpenRegionV {
                    region_id: id,
                    metadata: request_meta(req),
                    memtable_id: pre.memtable_builder.next_id,
                    region_dir: req.region_dir@,
                },
            )
            &&& post.object_store.spec_dir(req.region_dir@) == Some(request_meta(req))
            &&& forall|d: Seq<char>|
                d != req.region_dir@ ==> post.object_store.spec_dir(d)
                    == pre.object_store.spec_dir(d)
        },
        Err(WorkerError::RegionExists { region_id: rid }) => {
            &&& rid == id
            &&& pre.regions_map().dom().contains(id)
            &&& !req.create_if_not_exists
            &&& post.regions_map() == pre.regions_map()
            &&& post.object_store == pre.object_store
        },
        Err(WorkerError::InvalidMetadata) => {
            &&& !pre.regions_map().dom().contains(id)
            &&& !valid_metadata(request_meta(req))
            &&& post.regions_map() == pre.regions_map()
            &&& post.object_store == pre.object_store
        },
        Err(_) => false,
    }
}

/// What handling an open request does: opening an already open region
/// is a no-op, opening from a directory with data restores the stored
/// metadata, and a directory without data is `RegionNotFound`.
pub open spec fn open_outcome(
    pre: RegionWorkerLoop,
    post: RegionWorkerLoop,
    r: Result<(), WorkerError>,
    region_id: RegionId,
    req: RegionOpenRequest,
) -> bool {
    let id = region_id.spec_as_u64();
    &&& post.running == pre.running
    &&& post.object_store == pre.object_store
    &&& match r {
        Ok(()) => if pre.regions_map().dom().contains(id) {
            post.regions_map() == pre.regions_map()
        } else {
            &&& pre.object_store.spec_dir(req.region_dir@) is Some
            &&& post.regions_map() == pre.regions_map().insert(
                id,
                OpenRegionV {
                    region_id: id,
                    metadata: pre.object_store.spec_dir(req.region_dir@).unwrap(),
                    memtable_id: pre.memtable_builder.next_id,
                    region_dir: req.region_dir@,
                },
            )
        },
        Err(WorkerError::RegionNotFound { region_id: rid }) => {
            &&& rid == id
            &&& !pre.regions_map().dom().contains(id)
            &&& pre.object_store.spec_dir(req.region_dir@) is None
            &&& post.regions_map() == pre.regions_map()
        },
        Err(_) => false,
    }
}

/// What handling a close request does: the region leaves the worker's
/// map — closing an absent region included — and its on-disk data
/// stays.
pub open spec fn close_outcome(
    pre: RegionWorkerLoop,
    post: RegionWorkerLoop,
    r: Result<(), WorkerError>,
    region_id: RegionId,
) -> bool {
    let id = region_id.spec_as_u64();
    &&& post.running == pre.running
    &&& post.object_store == pre.object_store
    &&& r is Ok
    &&& post.regions_map() == pre.regions_map().remove(id)
}

/// What handling a write request does: the batch must address an open
/// region and carry the region's schema; the write lands in the active
/// memtable, whose retention the memtable itself defines.
pub open spec fn write_outcome(
    pre: RegionWorkerLoop,
    post: RegionWorkerLoop,
    r: Result<(), WorkerError>,
    region_id: RegionId,
    req: RegionWriteRequest,
) -> bool {
    let id = region_id.spec_as_u64();
    &&& post.running == pre.running
    &&& post.object_store == pre.object_store
    &&& post.regions_map() == pre.regions_map()
    &&& match r {
        Ok(()) => pre.regions_map().dom().contains(id) && schema_matches(
            schema_view(req.rows.schema@),
            pre.regions_map()[id].metadata,
        ),
        Err(WorkerError::RegionNotFound { region_id: rid }) => rid == id && !pre.regions_map(
        ).dom().contains(id),
        Err(WorkerError::InvalidMetadata) => pre.regions_map().dom().contains(id)
            && !schema_matches(schema_view(req.rows.schema@), pre.regions_map()[id].metadata),
        Err(_) => false,
    }
}

impl RegionWorkerLoop {
    /// Handles a create request.
    pub fn handle_create_request(
        &mut self,
        region_id: RegionId,
        request: RegionCreateRequest,
    ) -> (r: Result<(), WorkerError>)
        requires
            old(self).wf(),
        ensures
            final(self).wf(),
            create_outcome(*old(self), *final(self), r, region_id, request),
    {
        let id = region_id.as_u64();
        let ghost reqv = request;

        // Checks whether the region exists.
        proof {
            lemma_assoc_map_props(self.regions@);
        }
        match self.find_region(id) {
            Some(_) => {
                if !request.create_if_not_exists {
                    return Err(WorkerError::RegionExists { region_id: id });
                }
                // Region already exists.
                return Ok(());
            },
            None => {
                proof {
                    if self.regions_map().dom().contains(id) {
                        let j = choose|j: int|
                            0 <= j < self.regions@.len() && (#[trigger] self.regions@[j]).0 == id;
                    }
                }
            },
        }

        // Convert the request into region metadata and validate it.
        let RegionCreateRequest { column_metadatas, primary_key, create_if_not_exists: _, region_dir } =
            request;
        let metadata = RegionMetadata { column_metadatas, primary_key };
        if !check_metadata(&metadata) {
            return Err(WorkerError::InvalidMetadata);
        }

        // Open the region in create mode: its directory is created in
        // the object store, a fresh memtable is minted.
        let stored_metadata = metadata.clone();
        let memtable = self.memtable_builder.build(&metadata);
        let region = OpenRegion {
            region_id,
            metadata,
            memtable,
            region_dir: region_dir.clone(),
        };
        self.object_store.put(region_dir, stored_metadata);

        let ghost regions0 = self.regions@;
        self.regions.push((id, region));
        proof {
            crate::seqs::lemma_assoc_map_push(regions0, id, self.regions@.last().1);
            assert(self.regions@.drop_last() =~= regions0);
            assert(self.regions@.last().1@ == (OpenRegionV {
                region_id: id,
                metadata: request_meta(reqv),
                memtable_id: old(self).memtable_builder.next_id,
                region_dir: reqv.region_dir@,
            }));
        }
        Ok(())
    }

    /// Handles an open request.
    pub fn handle_open_request(
        &mut self,
        region_id: RegionId,
        request: RegionOpenRequest,
    ) -> (r: Result<(), WorkerError>)
        requires
            old(self).wf(),
        ensures
            final(self).wf(),
            open_outcome(*old(self), *final(self), r, region_id, request),
    {
        let id = region_id.as_u64();
        proof {
            lemma_assoc_map_props(self.regions@);
        }
        match self.find_region(id) {
            Some(_) => {
                // Already open: opening again is a no-op.
                return Ok(());
            },
            None => {
                proof {
                    if self.regions_map().dom().contains(id) {
                        let j = choose|j: int|
                            0 <= j < self.regions@.len() && (#[trigger] self.regions@[j]).0 == id;
                    }
                }
            },
        }
        let metadata = match self.object_store.get(&request.region_dir) {
            Some(m) => m.clone(),
            None => {
                return Err(WorkerError::RegionNotFound { region_id: id });
            },
        };
        let memtable = self.memtable_builder.build(&metadata);
        let region = OpenRegion {
            region_id,
            metadata,
            memtable,
            region_dir: request.region_dir,
        };
        let ghost regions0 = self.regions@;
        self.regions.push((id, region));
        proof {
            crate::seqs::lemma_assoc_map_push(regions0, id, self.regions@.last().1);
            assert(self.regions@.drop_last() =~= regions0);
        }
        Ok(())
    }

    /// Handles a close request: closing a region that is not open is
    /// also fine.
    pub fn handle_close_request(&mut self, region_id: RegionId) -> (r: Result<(), WorkerError>)
        requires
            old(self).wf(),
        ensures
            final(self).wf(),
            close_outcome(*old(self), *final(self), r, region_id),
    {
        let id = region_id.as_u64();
        proof {
            lemma_assoc_map_props(self.regions@);
        }
        match self.find_region(id) {
            Some(i) => {
                let ghost regions0 = self.regions@;
                let _ = self.regions.remove(i);
                proof {
                    assert(self.regions@ =~= regions0.remove(i as int));
                    crate::seqs::lemma_assoc_map_remove(regions0, i as int);
                }
                Ok(())
            },
            None => {
                proof {
                    if self.regions_map().dom().contains(id) {
                        let j = choose|j: int|
                            0 <= j < self.regions@.len() && (#[trigger] self.regions@[j]).0 == id;
                    }
                    assert(self.regions_map() =~= self.regions_map().remove(id));
                }
                Ok(())
            },
        }
    }

    /// Handles a write request: validates the batch's schema against
    /// the region's metadata and appends it to the active memtable.
    pub fn handle_write_request(
        &mut self,
        region_id: RegionId,
        request: RegionWriteRequest,
    ) -> (r: Result<(), WorkerError>)
        requires
            old(self).wf(),
        ensures
            final(self).wf(),
            write_outcome(*old(self), *final(self), r, region_id, request),
    {
        let id = region_id.as_u64();
        proof {
            lemma_assoc_map_props(self.regions@);
        }
        let i = match self.find_region(id) {
            Some(i) => i,
            None => {
                proof {
                    if self.regions_map().dom().contains(id) {
                        let j = choose|j: int|
                            0 <= j < self.regions@.len() && (#[trigger] self.regions@[j]).0 == id;
                    }
                }
                return Err(WorkerError::RegionNotFound { region_id: id });
            },
        };
        if !schema_matches_metadata(&request.rows, &self.regions[i].1.metadata) {
            proof {
                assert(self.regions_map()[(self.regions@[i as int]).0]
                    == self.regions@[i as int].1@);
            }
            return Err(WorkerError::InvalidMetadata);
        }
        proof {
            assert(self.regions_map()[(self.regions@[i as int]).0] == self.regions@[i as int].1@);
        }
        let ghost regions0 = self.regions@;
        let (key, mut region) = self.regions.remove(i);
        let kvs = KeyValues { rows: request.rows };
        let _ = region.memtable.write(&kvs);
        proof {
            assert(region.memtable.id == regions0[i as int].1.memtable.id);
            assert(region == regions0[i as int].1);
        }
        self.regions.insert(i, (key, region));
        proof {
            assert(self.regions@ =~= regions0);
        }
        Ok(())
    }

    /// Handles one mailbox item. A stopped worker rejects every
    /// request with `WorkerStopped`.
    pub fn handle_request(&mut self, region_id: RegionId, request: RegionRequest) -> (r: Result<
        (),
        WorkerError,
    >)
        requires
            old(self).wf(),
        ensures
            final(self).wf(),
            !old(self).running ==> r == Err::<(), WorkerError>(WorkerError::WorkerStopped)
                && *final(self) == *old(self),
            old(self).running ==> match request {
                RegionRequest::Create(req) => create_outcome(
                    *old(self),
                    *final(self),
                    r,
                    region_id,
                    req,
                ),
                RegionRequest::Open(req) => open_outcome(
                    *old(self),
                    *final(self),
                    r,
                    region_id,
                    req,
                ),
                RegionRequest::Close(_) => close_outcome(*old(self), *final(self), r, region_id),
                RegionRequest::Write(req) => write_outcome(
                    *old(self),
                    *final(self),
                    r,
                    region_id,
                    req,
                ),
            },
    {
        if !self.running {
            return Err(WorkerError::WorkerStopped);
        }
        match request {
            RegionRequest::Create(req) => self.handle_create_request(region_id, req),
            RegionRequest::Open(req) => self.handle_open_request(region_id, req),
            RegionRequest::Close(_) => self.handle_close_request(region_id),
            RegionRequest::Write(req) => self.handle_write_request(region_id, req),
        }
    }
}

/// Whether a batch's schema names the region's columns, in order.
fn schema_matches_metadata(rows: &Rows, m: &RegionMetadata) -> (r: bool)
    ensures
        r == schema_matches(schema_view(rows.schema@), m@),
{
    if rows.schema.len() != m.column_metadatas.len() {
        return false;
    }
    let n = rows.schema.len();
    let mut i: usize = 0;
    while i < n
        invariant
            n == rows.schema@.len(),
            n == m.column_metadatas@.len(),
            i <= n,
            forall|j: int|
                0 <= j < i ==> (#[trigger] schema_view(rows.schema@)[j]).column_name == m@
                    .column_metadatas[j].name,
        decreases n - i,
    {
        if !rows.schema[i].column_name.eq(&m.column_metadatas[i].name) {
            proof {
                assert(schema_view(rows.schema@)[i as int].column_name == rows.schema@[
                    i as int].column_name@);
                assert(m@.column_metadatas[i as int].name == m.column_metadatas@[i as int].name@);
            }
            return false;
        }
        proof {
            assert(schema_view(rows.schema@)[i as int].column_name == rows.schema@[
                i as int].column_name@);
            assert(m@.column_metadatas[i as int].name == m.column_metadatas@[i as int].name@);
        }
        i = i + 1;
    }
    true
}

} // verus!
