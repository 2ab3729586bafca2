//! Memtables: per-region in-memory write buffers. A region holds one
//! active memtable; the builder mints a fresh memtable, with a fresh
//! id, on every region version transition.

use vstd::prelude::*;

use crate::metadata::RegionMetadata;
use crate::row::{Rows, RowsV};

verus! {

/// Id of a memtable; unique within one region.
pub type MemtableId = u32;

/// A write batch as the worker hands it to a memtable.
pub struct KeyValues {
    pub rows: Rows,
}

impl View for KeyValues {
    type V = RowsV;

    open spec fn view(&self) -> RowsV {
        self.rows@
    }
}

/// What a scan asks of a memtable. The worker model keeps no
/// projections or filters, so the request carries nothing.
pub struct ScanRequest {}

/// In-memory write buffer of one region version.
pub trait Memtable: Sized {
    /// The memtable's id.
    spec fn mem_id_spec(&self) -> MemtableId;

    /// The batches the memtable retains, oldest first.
    spec fn contents(&self) -> Seq<RowsV>;

    /// The batches retained after writing one more.
    spec fn after_write(&self, kvs: RowsV) -> Seq<RowsV>;

    fn id(&self) -> (r: MemtableId)
        ensures
            r == self.mem_id_spec(),
    ;

    /// Writes a batch into the buffer.
    fn write(&mut self, kvs: &KeyValues) -> (r: Result<(), ()>)
        ensures
            final(self).mem_id_spec() == old(self).mem_id_spec(),
            r is Ok,
            final(self).contents() == old(self).after_write(kvs@),
    ;

    /// The retained batches, in write order.
    fn iter(&self, req: ScanRequest) -> (r: Vec<KeyValues>)
        ensures
            r@.map_values(|kv: KeyValues| kv@) == self.contents(),
    ;
}

/// Builder that mints a new memtable per region version transition.
pub trait MemtableBuilder: Sized {
    type Output;

    /// Builds a new memtable instance for a region with the given
    /// metadata.
    fn build(&mut self, metadata: &RegionMetadata) -> Self::Output;
}

/// A write buffer that retains nothing: a placeholder sink whose scans
/// are always empty.
pub struct EmptyMemtable {
    pub id: MemtableId,
}

impl EmptyMemtable {
    /// A new memtable with the given `id`.
    pub fn new(id: MemtableId) -> (r: EmptyMemtable)
        ensures
            r.id == id,
    {
        EmptyMemtable { id }
    }
}

impl Memtable for EmptyMemtable {
    open spec fn mem_id_spec(&self) -> MemtableId {
        self.id
    }

    open spec fn contents(&self) -> Seq<RowsV> {
        Seq::empty()
    }

    /// Discards every write.
    open spec fn after_write(&self, kvs: RowsV) -> Seq<RowsV> {
        Seq::empty()
    }

    fn id(&self) -> (r: MemtableId) {
        self.id
    }

    fn write(&mut self, kvs: &KeyValues) -> (r: Result<(), ()>) {
        Ok(())
    }

    fn iter(&self, req: ScanRequest) -> (r: Vec<KeyValues>) {
        let r: Vec<KeyValues> = Vec::new();
        proof {
            assert(r@.map_values(|kv: KeyValues| kv@) =~= Seq::<RowsV>::empty());
        }
        r
    }
}

/// Default builder: empty memtables with ascending ids; the id wraps
/// at the type's top like the counter it models.
pub struct DefaultMemtableBuilder {
    pub next_id: MemtableId,
}

impl DefaultMemtableBuilder {
    pub fn new() -> (r: Self)
        ensures
            r.next_id == 0,
    {
        DefaultMemtableBuilder { next_id: 0 }
    }
}

impl MemtableBuilder for DefaultMemtableBuilder {
    type Output = EmptyMemtable;

    fn build(&mut self, metadata: &RegionMetadata) -> (r: EmptyMemtable)
        ensures
            r.id == old(self).next_id,
            final(self).next_id == (if old(self).next_id == u32::MAX {
                0u32
            } else {
                (old(self).next_id + 1) as u32
            }),
    {
        let id = self.next_id;
        if self.next_id == u32::MAX {
            self.next_id = 0;
        } else {
            self.next_id = self.next_id + 1;
        }
        EmptyMemtable::new(id)
    }
}

} // verus!
