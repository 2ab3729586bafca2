//! Region metadata: the columns a region stores and its primary key,
//! with the validity check that region creation enforces.

use vstd::prelude::*;

verus! {

/// Mathematical model of a [`ColumnMetadata`].
pub struct ColumnMetadataV {
    pub column_id: u64,
    pub name: Seq<char>,
}

/// One column a region stores.
pub struct ColumnMetadata {
    pub column_id: u64,
    pub name: String,
}

impl View for ColumnMetadata {
    type V = ColumnMetadataV;

    open spec fn view(&self) -> ColumnMetadataV {
        ColumnMetadataV { column_id: self.column_id, name: self.name@ }
    }
}

impl Clone for ColumnMetadata {
    fn clone(&self) -> (r: Self)
        ensures
            r@ == self@,
    {
        ColumnMetadata { column_id: self.column_id, name: self.name.clone() }
    }
}

/// View of a column list.
pub open spec fn columns_meta_view(s: Seq<ColumnMetadata>) -> Seq<ColumnMetadataV> {
    s.map_values(|c: ColumnMetadata| c@)
}

/// Mathematical model of a [`RegionMetadata`].
pub struct RegionMetadataV {
    pub column_metadatas: Seq<ColumnMetadataV>,
    pub primary_key: Seq<u64>,
}

/// Metadata of one region: its columns and the ids of its primary-key
/// columns.
pub struct RegionMetadata {
    pub column_metadatas: Vec<ColumnMetadata>,
    pub primary_key: Vec<u64>,
}

impl View for RegionMetadata {
    type V = RegionMetadataV;

    open spec fn view(&self) -> RegionMetadataV {
        RegionMetadataV {
            column_metadatas: columns_meta_view(self.column_metadatas@),
            primary_key: self.primary_key@,
        }
    }
}

impl Clone for RegionMetadata {
    fn clone(&self) -> (r: Self)
        ensures
            r@ == self@,
    {
        let mut columns: Vec<ColumnMetadata> = Vec::new();
        let mut i: usize = 0;
        while i < self.column_metadatas.len()
            invariant
                i <= self.column_metadatas.len(),
                columns@.len() == i,
                forall|j: int| 0 <= j < i ==> columns@[j]@ == self.column_metadatas@[j]@,
            decreases self.column_metadatas.len() - i,
        {
            columns.push(self.column_metadatas[i].clone());
            i = i + 1;
        }
        let mut pk: Vec<u64> = Vec::new();
        let mut i: usize = 0;
        while i < self.primary_key.len()
            invariant
                i <= self.primary_key.len(),
                pk@ =~= self.primary_key@.subrange(0, i as int),
            decreases self.primary_key.len() - i,
        {
            pk.push(self.primary_key[i]);
            i = i + 1;
        }
        let r = RegionMetadata { column_metadatas: columns, primary_key: pk };
        proof {
            assert(pk@ =~= self.primary_key@);
            assert(r@.column_metadatas =~= self@.column_metadatas);
        }
        r
    }
}

/// Whether some column of the region carries the given id.
pub open spec fn has_column_id(m: RegionMetadataV, id: u64) -> bool {
    exists|i: int|
        0 <= i < m.column_metadatas.len() && (#[trigger] m.column_metadatas[i]).column_id == id
}

/// A region's metadata is valid when its column ids are distinct and
/// every primary-key id names one of its columns.
pub open spec fn valid_metadata(m: RegionMetadataV) -> bool {
    &&& forall|i: int, j: int|
        0 <= i < j < m.column_metadatas.len() ==> (#[trigger] m.column_metadatas[i]).column_id
            != (#[trigger] m.column_metadatas[j]).column_id
    &&& forall|k: int|
        0 <= k < m.primary_key.len() ==> has_column_id(m, #[trigger] m.primary_key[k])
}

/// Checks the validity a region build enforces.
pub fn check_metadata(m: &RegionMetadata) -> (r: bool)
    ensures
        r == valid_metadata(m@),
{
    let n = m.column_metadatas.len();
    let mut i: usize = 0;
    while i < n
        invariant
            n == m.column_metadatas@.len(),
            i <= n,
            forall|a: int, b: int|
                0 <= a < b < n && a < i ==> (#[trigger] m@.column_metadatas[a]).column_id != (
                #[trigger] m@.column_metadatas[b]).column_id,
        decreases n - i,
    {
        let mut j: usize = i + 1;
        while j < n
            invariant
                n == m.column_metadatas@.len(),
                i < n,
                i + 1 <= j <= n,
                forall|b: int|
                    i < b < j ==> (#[trigger] m@.column_metadatas[b]).column_id
                        != m@.column_metadatas[i as int].column_id,
            decreases n - j,
        {
            if m.column_metadatas[j].column_id == m.column_metadatas[i].column_id {
                proof {
                    assert(m@.column_metadatas[j as int].column_id == m@.column_metadatas[
                        i as int].column_id);
                }
                return false;
            }
            proof {
                assert(m@.column_metadatas[j as int].column_id != m@.column_metadatas[
                    i as int].column_id);
            }
            j = j + 1;
        }
        i = i + 1;
    }
    let mut k: usize = 0;
    while k < m.primary_key.len()
        invariant
            n == m.column_metadatas@.len(),
            k <= m.primary_key@.len(),
            forall|a: int, b: int|
                0 <= a < b < n ==> (#[trigger] m@.column_metadatas[a]).column_id != (
                #[trigger] m@.column_metadatas[b]).column_id,
            forall|x: int| 0 <= x < k ==> has_column_id(m@, #[trigger] m@.primary_key[x]),
        decreases m.primary_key@.len() - k,
    {
        if !has_column_with_id(m, self_key(m, k)) {
            return false;
        }
        k = k + 1;
    }
    proof {
        assert(valid_metadata(m@));
    }
    true
}

/// The `k`-th primary-key id.
fn self_key(m: &RegionMetadata, k: usize) -> (r: u64)
    requires
        k < m.primary_key@.len(),
    ensures
        r == m@.primary_key[k as int],
{
    m.primary_key[k]
}

/// Whether some column of the region carries the given id.
fn has_column_with_id(m: &RegionMetadata, id: u64) -> (r: bool)
    ensures
        r == has_column_id(m@, id),
{
    let mut i: usize = 0;
    while i < m.column_metadatas.len()
        invariant
            i <= m.column_metadatas@.len(),
            m@.column_metadatas.len() == m.column_metadatas@.len(),
            forall|j: int| 0 <= j < i ==> (#[trigger] m@.column_metadatas[j]).column_id != id,
        decreases m.column_metadatas@.len() - i,
    {
        if m.column_metadatas[i].column_id == id {
            proof {
                assert(m@.column_metadatas[i as int].column_id == id);
            }
            return true;
        }
        i = i + 1;
    }
    proof {
        if has_column_id(m@, id) {
            let i2 = choose|i2: int|
                0 <= i2 < m@.column_metadatas.len() && (#[trigger] m@.column_metadatas[
                    i2]).column_id == id;
        }
    }
    false
}

} // verus!
