//! Conversion of a column-oriented gRPC insert into a table insert
//! request: each column's packed null mask is unfolded against its
//! values, and columns land in the request once each.

use vstd::prelude::*;

use crate::value::{vals_view, Value, ValueV};

verus! {

/// Whether bit `idx` of the packed mask is set; bits beyond the mask
/// are unset. Bit order is least significant first within each byte.
pub open spec fn spec_bit(mask: Seq<u8>, idx: int) -> bool {
    0 <= idx && idx / 8 < mask.len() && ((mask[idx / 8] as u32) >> ((idx % 8) as u32)) & 1 == 1
}

/// Whether row `idx` is null under the mask: `None` when the mask does
/// not cover the index at all.
pub open spec fn spec_is_null(mask: Seq<u8>, idx: int) -> Option<bool> {
    if 0 <= idx && idx / 8 < mask.len() {
        Some(spec_bit(mask, idx))
    } else {
        None
    }
}

/// Whether row `idx` is null under the packed mask; `None` when the
/// mask does not cover the index.
pub fn is_null(null_mask: &Vec<u8>, idx: usize) -> (r: Option<bool>)
    ensures
        r == spec_is_null(null_mask@, idx as int),
{
    let byte = idx / 8;
    if byte < null_mask.len() {
        let bit = idx % 8;
        Some(((null_mask[byte] as u32) >> (bit as u32)) & 1 == 1)
    } else {
        None
    }
}

/// Number of set bits among the first `n` bit positions.
pub open spec fn ones_upto(mask: Seq<u8>, n: int) -> int
    decreases n,
{
    if n <= 0 {
        0
    } else {
        ones_upto(mask, n - 1) + if spec_bit(mask, n - 1) {
            1int
        } else {
            0int
        }
    }
}

pub proof fn lemma_ones_upto_bounds(mask: Seq<u8>, a: int, b: int)
    requires
        a <= b,
    ensures
        0 <= ones_upto(mask, b) - ones_upto(mask, a) <= b - a,
    decreases b - a,
{
    if a < b {
        lemma_ones_upto_bounds(mask, a, b - 1);
    }
}

/// Counts the set bits of the whole mask.
pub fn count_mask_ones(mask: &Vec<u8>) -> (r: usize)
    requires
        8 * mask@.len() as int <= usize::MAX,
    ensures
        r == ones_upto(mask@, 8 * mask@.len() as int),
{
    let bits: usize = 8 * mask.len();
    let mut count: usize = 0;
    let mut idx: usize = 0;
    while idx < bits
        invariant
            bits == 8 * mask@.len() as int,
            idx <= bits,
            count == ones_upto(mask@, idx as int),
            count <= idx,
        decreases bits - idx,
    {
        proof {
            lemma_ones_upto_bounds(mask@, 0, idx as int);
        }
        let byte = idx / 8;
        let bit = idx % 8;
        if ((mask[byte] as u32) >> (bit as u32)) & 1 == 1 {
            count = count + 1;
        }
        idx = idx + 1;
    }
    count
}

/// Error of an insert conversion.
#[derive(Clone, Copy, PartialEq, Eq, Structural, Debug)]
pub enum InsertError {
    /// With a non-empty null mask, nulls plus values must add up to the
    /// row count.
    UnexpectedValuesLength,
    /// Two columns of the request carry the same name.
    ColumnAlreadyExists,
}

/// The mask's set bits all lie below the row count: packed masks pad
/// with zeros past the rows they describe.
pub open spec fn mask_fits(mask: Seq<u8>, row_count: int) -> bool {
    forall|k: int| row_count <= k < 8 * mask.len() as int ==> !spec_bit(mask, k)
}

/// The column vector a value list and its null mask unfold to: row
/// `idx` is null where the mask says so, and otherwise takes the next
/// value in order. `None` when nulls and values do not add up.
pub open spec fn column_vector_spec(values: Seq<ValueV>, row_count: int, mask: Seq<u8>) -> Option<
    Seq<ValueV>,
> {
    if mask.len() == 0 {
        Some(values)
    } else if ones_upto(mask, 8 * mask.len() as int) + values.len() == row_count {
        Some(
            Seq::new(
                row_count as nat,
                |idx: int|
                    if spec_bit(mask, idx) {
                        ValueV::Null
                    } else {
                        values[idx - ones_upto(mask, idx)]
                    },
            ),
        )
    } else {
        None
    }
}

/// Unfolds a column's values against its null mask into one value per
/// row. With an empty mask the values pass through unchanged; with a
/// non-empty mask, nulls and values must add up to the row count.
pub fn add_values_to_builder(values: Vec<Value>, row_count: usize, null_mask: Vec<u8>) -> (r:
    Result<Vec<Value>, InsertError>)
    requires
        8 * null_mask@.len() as int <= usize::MAX,
        mask_fits(null_mask@, row_count as int),
    ensures
        match r {
            Ok(out) => Some(vals_view(out@)) == column_vector_spec(
                vals_view(values@),
                row_count as int,
                null_mask@,
            ),
            Err(InsertError::UnexpectedValuesLength) => column_vector_spec(
                vals_view(values@),
                row_count as int,
                null_mask@,
            ) is None,
            Err(_) => false,
        },
{
    if null_mask.len() == 0 {
        return Ok(values);
    }
    let total_ones = count_mask_ones(&null_mask);
    if total_ones > row_count || values.len() != row_count - total_ones {
        proof {
            lemma_ones_upto_bounds(null_mask@, 0, 8 * null_mask@.len() as int);
        }
        return Err(InsertError::UnexpectedValuesLength);
    }
    proof {
        lemma_ones_fits(null_mask@, row_count as int);
    }
    let ghost vv = vals_view(values@);
    let ghost mv = null_mask@;
    let mut out: Vec<Value> = Vec::new();
    let mut idx: usize = 0;
    let mut taken: usize = 0;
    while idx < row_count
        invariant
            mv == null_mask@,
            vv == vals_view(values@),
            vv.len() == values@.len(),
            8 * mv.len() as int <= usize::MAX,
            mask_fits(mv, row_count as int),
            ones_upto(mv, 8 * mv.len() as int) == ones_upto(mv, row_count as int),
            ones_upto(mv, row_count as int) + values@.len() == row_count,
            idx <= row_count,
            taken == idx - ones_upto(mv, idx as int),
            out@.len() == idx,
            forall|j: int|
                0 <= j < idx ==> (#[trigger] out@[j])@ == if spec_bit(mv, j) {
                    ValueV::Null
                } else {
                    vv[j - ones_upto(mv, j)]
                },
        decreases row_count - idx,
    {
        proof {
            lemma_ones_upto_bounds(mv, 0, idx as int);
            lemma_ones_upto_bounds(mv, idx as int, row_count as int);
        }
        let null_here = match is_null(&null_mask, idx) {
            Some(true) => true,
            _ => false,
        };
        if null_here {
            out.push(Value::Null);
        } else {
            proof {
                assert(!spec_bit(mv, idx as int));
                lemma_ones_upto_bounds(mv, idx + 1, row_count as int);
            }
            out.push(values[taken].clone());
            taken = taken + 1;
        }
        idx = idx + 1;
    }
    proof {
        let target = column_vector_spec(vv, row_count as int, mv).unwrap();
        assert(vals_view(out@) =~= target);
    }
    Ok(out)
}

/// Under `mask_fits`, counting to the row count or to the end of the
/// mask gives the same total.
proof fn lemma_ones_fits(mask: Seq<u8>, row_count: int)
    requires
        row_count >= 0,
        mask_fits(mask, row_count),
    ensures
        ones_upto(mask, 8 * mask.len() as int) == ones_upto(mask, row_count),
{
    if row_count <= 8 * mask.len() as int {
        lemma_ones_flat(mask, row_count, 8 * mask.len() as int);
    } else {
        lemma_ones_flat(mask, 8 * mask.len() as int, row_count);
    }
}

/// Counting past a stretch of unset bits adds nothing.
proof fn lemma_ones_flat(mask: Seq<u8>, a: int, b: int)
    requires
        a <= b,
        forall|k: int| a <= k < b ==> !spec_bit(mask, k),
    ensures
        ones_upto(mask, b) == ones_upto(mask, a),
    decreases b - a,
{
    if a < b {
        lemma_ones_flat(mask, a, b - 1);
        assert(!spec_bit(mask, b - 1));
    }
}

/// One column of a column-oriented gRPC insert: its values, with nulls
/// packed into the mask rather than listed.
pub struct Column {
    pub column_name: String,
    pub values: Option<Vec<Value>>,
    pub null_mask: Vec<u8>,
    pub datatype: i32,
    pub semantic_type: i32,
}

/// The converted insert: one unfolded value vector per named column.
#[derive(Debug)]
pub struct InsertRequest {
    pub catalog_name: String,
    pub schema_name: String,
    pub table_name: String,
    pub columns_values: Vec<(String, Vec<Value>)>,
    pub region_number: u32,
}

/// View of a column-values list.
pub open spec fn columns_values_view(s: Seq<(String, Vec<Value>)>) -> Seq<
    (Seq<char>, Seq<ValueV>),
> {
    s.map_values(|e: (String, Vec<Value>)| (e.0@, vals_view(e.1@)))
}

/// Whether the list already carries a column of the given name.
pub open spec fn list_has_name(l: Seq<(Seq<char>, Seq<ValueV>)>, name: Seq<char>) -> bool {
    exists|i: int| 0 <= i < l.len() && (#[trigger] l[i]).0 == name
}

/// A column's mask is within machine limits and pads with zeros past
/// the row count.
pub open spec fn column_wf(c: Column, row_count: int) -> bool {
    c.values is Some ==> 8 * c.null_mask@.len() as int <= usize::MAX && mask_fits(
        c.null_mask@,
        row_count,
    )
}

/// The column-values list the conversion builds from the first `k`
/// columns: columns without values are skipped, each other column's
/// values unfold against its mask, and a repeated name sinks the whole
/// conversion. `None` when some column fails.
pub open spec fn insert_columns_list(cols: Seq<Column>, row_count: int, k: int) -> Option<
    Seq<(Seq<char>, Seq<ValueV>)>,
>
    decreases k,
{
    if k <= 0 {
        Some(Seq::empty())
    } else {
        match insert_columns_list(cols, row_count, k - 1) {
            None => None,
            Some(l) => {
                let c = cols[k - 1];
                match c.values {
                    None => Some(l),
                    Some(values) => {
                        match column_vector_spec(vals_view(values@), row_count, c.null_mask@) {
                            None => None,
                            Some(v) => if list_has_name(l, c.column_name@) {
                                None
                            } else {
                                Some(l.push((c.column_name@, v)))
                            },
                        }
                    },
                }
            },
        }
    }
}

/// Converts a column-oriented gRPC insert into a table insert request:
/// every column with values lands once, its nulls unfolded; a repeated
/// column name or a mask that does not add up fails the request.
pub fn to_table_insert_request(
    catalog_name: &str,
    schema_name: &str,
    table_name: String,
    columns: Vec<Column>,
    row_count: u32,
    region_number: u32,
) -> (r: Result<InsertRequest, InsertError>)
    requires
        forall|i: int|
            0 <= i < columns@.len() ==> column_wf(#[trigger] columns@[i], row_count as int),
    ensures
        match r {
            Ok(req) => {
                &&& Some(columns_values_view(req.columns_values@)) == insert_columns_list(
                    columns@,
                    row_count as int,
                    columns@.len() as int,
                )
                &&& req.catalog_name@ == catalog_name@
                &&& req.schema_name@ == schema_name@
                &&& req.table_name@ == table_name@
                &&& req.region_number == region_number
            },
            Err(_) => insert_columns_list(columns@, row_count as int, columns@.len() as int)
                is None,
        },
{
    let ghost cv = columns@;
    let row_count_usize = row_count as usize;
    let mut remaining = columns;
    let mut out: Vec<(String, Vec<Value>)> = Vec::new();
    let mut k: usize = 0;
    let n = remaining.len();
    proof {
        assert(columns_values_view(out@) =~= Seq::<(Seq<char>, Seq<ValueV>)>::empty());
        assert(remaining@ =~= cv.skip(0));
    }
    while remaining.len() > 0
        invariant
            cv == columns@,
            cv.len() == n,
            k + remaining@.len() == cv.len(),
            remaining@ == cv.skip(k as int),
            row_count_usize == row_count as usize,
            forall|i: int| 0 <= i < cv.len() ==> column_wf(#[trigger] cv[i], row_count as int),
            Some(columns_values_view(out@)) == insert_columns_list(
                cv,
                row_count as int,
                k as int,
            ),
        decreases remaining@.len(),
    {
        let ghost out0 = columns_values_view(out@);
        proof {
            assert(remaining@[0] == cv[k as int]);
        }
        let column = remaining.remove(0);
        proof {
            assert(remaining@ =~= cv.skip(k + 1));
        }
        let Column { column_name, values, null_mask, datatype: _, semantic_type: _ } = column;
        match values {
            None => {},
            Some(values) => {
                let ghost valv = vals_view(values@);
                let ghost maskv = null_mask@;
                let vector = match add_values_to_builder(values, row_count_usize, null_mask) {
                    Ok(v) => v,
                    Err(e) => {
                        proof {
                            assert(cv[k as int].values is Some);
                            assert(vals_view(cv[k as int].values.unwrap()@) == valv);
                            assert(cv[k as int].null_mask@ == maskv);
                            assert(column_vector_spec(valv, row_count as int, maskv) is None);
                            assert(insert_columns_list(cv, row_count as int, k + 1) is None);
                            lemma_insert_columns_none(
                                cv,
                                row_count as int,
                                k + 1,
                                cv.len() as int,
                            );
                        }
                        return Err(e);
                    },
                };
                if contains_column_name(&out, &column_name) {
                    proof {
                        assert(cv[k as int].values is Some);
                        assert(list_has_name(out0, cv[k as int].column_name@));
                        assert(insert_columns_list(cv, row_count as int, k + 1) is None);
                        lemma_insert_columns_none(cv, row_count as int, k + 1, cv.len() as int);
                    }
                    return Err(InsertError::ColumnAlreadyExists);
                }
                let ghost vecv = vals_view(vector@);
                out.push((column_name, vector));
                proof {
                    assert(columns_values_view(out@) =~= out0.push(
                        (cv[k as int].column_name@, vecv),
                    ));
                }
            },
        }
        k = k + 1;
    }
    Ok(
        InsertRequest {
            catalog_name: catalog_name.to_owned(),
            schema_name: schema_name.to_owned(),
            table_name,
            columns_values: out,
            region_number,
        },
    )
}

/// Once some column has failed the conversion, it stays failed.
proof fn lemma_insert_columns_none(cols: Seq<Column>, row_count: int, k: int, k2: int)
    requires
        insert_columns_list(cols, row_count, k) is None,
        k <= k2,
    ensures
        insert_columns_list(cols, row_count, k2) is None,
    decreases k2 - k,
{
    if k < k2 {
        lemma_insert_columns_none(cols, row_count, k, k2 - 1);
    }
}

/// Whether the list already carries a column of the given name.
fn contains_column_name(out: &Vec<(String, Vec<Value>)>, name: &String) -> (r: bool)
    ensures
        r == list_has_name(columns_values_view(out@), name@),
{
    let mut i: usize = 0;
    while i < out.len()
        invariant
            i <= out@.len(),
            forall|j: int| 0 <= j < i ==> (#[trigger] columns_values_view(out@)[j]).0 != name@,
        decreases out@.len() - i,
    {
        if out[i].0.eq(name) {
            proof {
                assert((columns_values_view(out@)[i as int]).0 == name@);
            }
            return true;
        }
        proof {
            assert((columns_values_view(out@)[i as int]).0 == out@[i as int].0@);
        }
        i = i + 1;
    }
    proof {
        if list_has_name(columns_values_view(out@), name@) {
            let j = choose|j: int|
                0 <= j < columns_values_view(out@).len() && (#[trigger] columns_values_view(
                    out@,
                )[j]).0 == name@;
        }
    }
    false
}

} // verus!
