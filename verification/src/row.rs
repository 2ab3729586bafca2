//! Row-oriented write batches: the schema of a batch, its rows of plain
//! values, and the per-table insert request that the splitter fans out
//! to regions.

use vstd::prelude::*;

use crate::storage::RegionNumber;
use crate::value::{vals_view, Value, ValueV};

verus! {

/// Mathematical model of a [`ColumnSchema`].
pub struct ColumnSchemaV {
    pub column_name: Seq<char>,
    pub datatype: int,
    pub semantic_type: int,
}

/// Schema of one column of a row batch.
pub struct ColumnSchema {
    pub column_name: String,
    pub datatype: i32,
    pub semantic_type: i32,
}

impl View for ColumnSchema {
    type V = ColumnSchemaV;

    open spec fn view(&self) -> ColumnSchemaV {
        ColumnSchemaV {
            column_name: self.column_name@,
            datatype: self.datatype as int,
            semantic_type: self.semantic_type as int,
        }
    }
}

impl Clone for ColumnSchema {
    fn clone(&self) -> (r: Self)
        ensures
            r@ == self@,
    {
        ColumnSchema {
            column_name: self.column_name.clone(),
            datatype: self.datatype,
            semantic_type: self.semantic_type,
        }
    }
}

/// One row: a value per schema column.
pub struct Row {
    pub values: Vec<Value>,
}

impl View for Row {
    type V = Seq<ValueV>;

    open spec fn view(&self) -> Seq<ValueV> {
        vals_view(self.values@)
    }
}

impl Clone for Row {
    fn clone(&self) -> (r: Self)
        ensures
            r@ == self@,
    {
        let mut values: Vec<Value> = Vec::new();
        let mut i: usize = 0;
        while i < self.values.len()
            invariant
                i <= self.values.len(),
                values@.len() == i,
                forall|j: int| 0 <= j < i ==> values@[j]@ == self.values@[j]@,
            decreases self.values.len() - i,
        {
            values.push(self.values[i].clone());
            i = i + 1;
        }
        let r = Row { values };
        proof {
            assert(r@ =~= self@);
        }
        r
    }
}

/// View of a sequence of rows.
pub open spec fn rows_view(s: Seq<Row>) -> Seq<Seq<ValueV>> {
    s.map_values(|r: Row| r@)
}

/// View of a schema.
pub open spec fn schema_view(s: Seq<ColumnSchema>) -> Seq<ColumnSchemaV> {
    s.map_values(|c: ColumnSchema| c@)
}

/// Mathematical model of a [`Rows`] batch.
pub struct RowsV {
    pub schema: Seq<ColumnSchemaV>,
    pub rows: Seq<Seq<ValueV>>,
}

/// A batch of rows with its schema.
pub struct Rows {
    pub schema: Vec<ColumnSchema>,
    pub rows: Vec<Row>,
}

impl View for Rows {
    type V = RowsV;

    open spec fn view(&self) -> RowsV {
        RowsV { schema: schema_view(self.schema@), rows: rows_view(self.rows@) }
    }
}

impl Rows {
    /// Every row has exactly one value per schema column.
    pub open spec fn wf(&self) -> bool {
        forall|i: int| 0 <= i < self@.rows.len() ==> (#[trigger] self@.rows[i]).len()
            == self@.schema.len()
    }
}

/// Mathematical model of a [`RowInsertRequest`].
pub struct RowInsertRequestV {
    pub table_name: Seq<char>,
    pub rows: Option<RowsV>,
    pub region_number: RegionNumber,
}

/// A row-oriented insert addressed to one table, and after splitting to
/// one region of it.
pub struct RowInsertRequest {
    pub table_name: String,
    pub rows: Option<Rows>,
    pub region_number: RegionNumber,
}

impl View for RowInsertRequest {
    type V = RowInsertRequestV;

    open spec fn view(&self) -> RowInsertRequestV {
        RowInsertRequestV {
            table_name: self.table_name@,
            rows: match self.rows {
                Some(r) => Some(r@),
                None => None,
            },
            region_number: self.region_number,
        }
    }
}

/// Copy of a schema.
pub fn clone_schema(s: &Vec<ColumnSchema>) -> (r: Vec<ColumnSchema>)
    ensures
        schema_view(r@) == schema_view(s@),
{
    let mut r: Vec<ColumnSchema> = Vec::new();
    let mut i: usize = 0;
    while i < s.len()
        invariant
            i <= s.len(),
            r@.len() == i,
            forall|j: int| 0 <= j < i ==> r@[j]@ == s@[j]@,
        decreases s.len() - i,
    {
        r.push(s[i].clone());
        i = i + 1;
    }
    proof {
        assert(schema_view(r@) =~= schema_view(s@));
    }
    r
}

} // verus!
