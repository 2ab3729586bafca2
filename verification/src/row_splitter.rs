//! Fan-out of one row-oriented insert into per-region inserts: each row
//! is placed by the table's partition rule, rows keep their input order
//! within a region, and every row lands in exactly one region.

use vstd::prelude::*;

use vstd::pervasive::VecAdditionalExecFns;

use crate::error::PartitionError;
use crate::row::{
    clone_schema, rows_view, schema_view, ColumnSchema, ColumnSchemaV, Row, RowInsertRequest,
    RowInsertRequestV, Rows, RowsV,
};
use crate::rule::PartitionRule;
use crate::seqs::{assoc_distinct_keys, assoc_map, lemma_assoc_map_props, lemma_filter_all_false,
    lemma_filter_filter, lemma_filter_membership, lemma_filter_push,
    lemma_filter_complement_multiset};
use vstd::multiset::Multiset;
use crate::storage::RegionNumber;
use crate::value::{vals_view, Value, ValueV};

verus! {

/// Index in `schema` of the column called `name`; when several columns
/// carry the name, the last one, matching lookup through a
/// name-to-index map filled front to back. `None` when absent.
pub open spec fn col_index(schema: Seq<ColumnSchemaV>, name: Seq<char>) -> Option<int>
    decreases schema.len(),
{
    if schema.len() == 0 {
        None
    } else if schema.last().column_name == name {
        Some(schema.len() - 1)
    } else {
        col_index(schema.drop_last(), name)
    }
}

pub proof fn lemma_col_index_in_bounds(schema: Seq<ColumnSchemaV>, name: Seq<char>)
    ensures
        match col_index(schema, name) {
            Some(i) => 0 <= i < schema.len() && schema[i].column_name == name,
            None => true,
        },
    decreases schema.len(),
{
    if schema.len() > 0 && !(schema.last().column_name == name) {
        lemma_col_index_in_bounds(schema.drop_last(), name);
    }
}

/// The partition-column values of one row: the row's value at each
/// partition column's schema index, `Null` for a partition column the
/// schema does not carry.
pub open spec fn partition_values(
    schema: Seq<ColumnSchemaV>,
    cols: Seq<Seq<char>>,
    row: Seq<ValueV>,
) -> Seq<ValueV> {
    Seq::new(
        cols.len(),
        |k: int|
            match col_index(schema, cols[k]) {
                Some(i) => row[i],
                None => ValueV::Null,
            },
    )
}

/// The region one row goes to under `rule`, by its partition-column
/// values; `None` when the rule cannot place it.
pub open spec fn row_dest<R: PartitionRule>(
    rule: R,
    schema: Seq<ColumnSchemaV>,
    row: Seq<ValueV>,
) -> Option<RegionNumber> {
    rule.find_region_spec(partition_values(schema, rule.columns_spec(), row))
}

/// Predicate on rows: goes to region `n`.
pub open spec fn dest_pred<R: PartitionRule>(
    rule: R,
    schema: Seq<ColumnSchemaV>,
    n: RegionNumber,
) -> spec_fn(Seq<ValueV>) -> bool {
    |row: Seq<ValueV>| row_dest(rule, schema, row) == Some(n)
}

/// The rows of a batch bound for region `n`, in input order.
pub open spec fn group_rows<R: PartitionRule>(rule: R, rv: RowsV, n: RegionNumber) -> Seq<
    Seq<ValueV>,
> {
    rv.rows.filter(dest_pred(rule, rv.schema, n))
}

/// Every row of the batch can be placed by the rule.
pub open spec fn all_rows_placed<R: PartitionRule>(rule: R, rv: RowsV) -> bool {
    forall|i: int| 0 <= i < rv.rows.len() ==> (#[trigger] row_dest(rule, rv.schema, rv.rows[i]))
        is Some
}

/// The per-region requests a split of `req` produces: one request per
/// region that at least one row goes to, carrying the batch's schema,
/// the region's rows in input order, and the region number.
pub open spec fn split_groups<R: PartitionRule>(
    rule: R,
    req: RowInsertRequestV,
    rv: RowsV,
) -> Map<RegionNumber, RowInsertRequestV> {
    Map::new(
        |n: RegionNumber|
            exists|i: int|
                0 <= i < rv.rows.len() && #[trigger] row_dest(rule, rv.schema, rv.rows[i])
                    == Some(n),
        |n: RegionNumber|
            RowInsertRequestV {
                table_name: req.table_name,
                rows: Some(RowsV { schema: rv.schema, rows: group_rows(rule, rv, n) }),
                region_number: n,
            },
    )
}

/// What a split returns: a single split keyed to region `0` when the
/// rule has no partition columns, nothing for an empty request, and
/// otherwise one request per destination region — or nothing, when some
/// row cannot be placed.
pub open spec fn split_spec<R: PartitionRule>(rule: R, req: RowInsertRequestV) -> Option<
    Map<RegionNumber, RowInsertRequestV>,
> {
    if rule.columns_spec().len() == 0 {
        Some(Map::<RegionNumber, RowInsertRequestV>::empty().insert(0, req))
    } else {
        match req.rows {
            None => Some(Map::<RegionNumber, RowInsertRequestV>::empty()),
            Some(rv) => if all_rows_placed(rule, rv) {
                Some(split_groups(rule, req, rv))
            } else {
                None
            },
        }
    }
}

/// The per-region requests a split produced, keyed by region number.
pub struct RowInsertRequestSplits {
    pub entries: Vec<(RegionNumber, RowInsertRequest)>,
}

impl View for RowInsertRequestSplits {
    type V = Map<RegionNumber, RowInsertRequestV>;

    open spec fn view(&self) -> Map<RegionNumber, RowInsertRequestV> {
        assoc_map(self.entries@)
    }
}

impl RowInsertRequestSplits {
    /// Region numbers occur once each.
    pub open spec fn wf(&self) -> bool {
        assoc_distinct_keys(self.entries@)
    }

    /// Number of per-region requests.
    pub fn len(&self) -> (r: usize)
        requires
            self.wf(),
        ensures
            r == self@.dom().len(),
    {
        proof {
            lemma_assoc_map_props(self.entries@);
        }
        self.entries.len()
    }

    /// The request bound for one region, if any row went there.
    pub fn get(&self, region: RegionNumber) -> (r: Option<&RowInsertRequest>)
        requires
            self.wf(),
        ensures
            match r {
                Some(req) => self@.dom().contains(region) && req@ == self@[region],
                None => !self@.dom().contains(region),
            },
    {
        proof {
            lemma_assoc_map_props(self.entries@);
        }
        let mut i: usize = 0;
        while i < self.entries.len()
            invariant
                self.wf(),
                i <= self.entries@.len(),
                forall|j: int| 0 <= j < i ==> (#[trigger] self.entries@[j]).0 != region,
            decreases self.entries@.len() - i,
        {
            if self.entries[i].0 == region {
                proof {
                    lemma_assoc_map_props(self.entries@);
                }
                return Some(&self.entries[i].1);
            }
            i = i + 1;
        }
        proof {
            lemma_assoc_map_props(self.entries@);
            if self@.dom().contains(region) {
                let j = choose|j: int|
                    0 <= j < self.entries@.len() && (#[trigger] self.entries@[j]).0 == region;
            }
        }
        None
    }
}

/// View of an optional schema index.
pub open spec fn opt_index_view(o: Option<usize>) -> Option<int> {
    match o {
        Some(u) => Some(u as int),
        None => None,
    }
}

/// For each partition column, its index in the schema, `None` when the
/// schema does not carry it.
fn partition_cols_indexes(schema: &Vec<ColumnSchema>, cols: &Vec<String>) -> (r: Vec<
    Option<usize>,
>)
    ensures
        r@.len() == cols@.len(),
        forall|k: int|
            0 <= k < cols@.len() ==> opt_index_view(#[trigger] r@[k]) == col_index(
                schema_view(schema@),
                cols@[k]@,
            ),
{
    let ghost sv = schema_view(schema@);
    let mut r: Vec<Option<usize>> = Vec::new();
    let mut k: usize = 0;
    while k < cols.len()
        invariant
            k <= cols@.len(),
            sv == schema_view(schema@),
            sv.len() == schema@.len(),
            r@.len() == k,
            forall|m: int|
                0 <= m < k ==> opt_index_view(#[trigger] r@[m]) == col_index(sv, cols@[m]@),
        decreases cols@.len() - k,
    {
        let mut cur: Option<usize> = None;
        let mut j: usize = 0;
        proof {
            assert(sv.subrange(0, 0) =~= Seq::<ColumnSchemaV>::empty());
        }
        while j < schema.len()
            invariant
                j <= schema@.len(),
                k < cols@.len(),
                sv == schema_view(schema@),
                sv.len() == schema@.len(),
                opt_index_view(cur) == col_index(sv.subrange(0, j as int), cols@[k as int]@),
            decreases schema@.len() - j,
        {
            proof {
                assert(sv.subrange(0, j + 1).drop_last() =~= sv.subrange(0, j as int));
                assert(sv.subrange(0, j + 1).last() == sv[j as int]);
            }
            if schema[j].column_name.eq(&cols[k]) {
                cur = Some(j);
            }
            j = j + 1;
        }
        proof {
            assert(sv.subrange(0, sv.len() as int) =~= sv);
        }
        r.push(cur);
        k = k + 1;
    }
    r
}

/// The row's value at each resolved index, `Null` where there is none.
fn row_partition_values(indexes: &Vec<Option<usize>>, row: &Row) -> (vals: Vec<Value>)
    requires
        forall|k: int|
            0 <= k < indexes@.len() ==> match #[trigger] indexes@[k] {
                Some(j) => j < row.values@.len(),
                None => true,
            },
    ensures
        vals@.len() == indexes@.len(),
        forall|k: int|
            0 <= k < indexes@.len() ==> vals_view(vals@)[k] == match #[trigger] indexes@[k] {
                Some(j) => row@[j as int],
                None => ValueV::Null,
            },
{
    let mut vals: Vec<Value> = Vec::new();
    let mut k: usize = 0;
    while k < indexes.len()
        invariant
            k <= indexes@.len(),
            vals@.len() == k,
            forall|m: int|
                0 <= m < indexes@.len() ==> match #[trigger] indexes@[m] {
                    Some(j) => j < row.values@.len(),
                    None => true,
                },
            forall|m: int|
                0 <= m < k ==> vals@[m]@ == match #[trigger] indexes@[m] {
                    Some(j) => row@[j as int],
                    None => ValueV::Null,
                },
        decreases indexes@.len() - k,
    {
        match indexes[k] {
            Some(j) => {
                vals.push(row.values[j].clone());
            },
            None => {
                vals.push(Value::Null);
            },
        }
        k = k + 1;
    }
    vals
}

/// Index of the first entry equal to `n`.
fn find_key(keys: &Vec<RegionNumber>, n: RegionNumber) -> (r: Option<usize>)
    ensures
        match r {
            Some(g) => g < keys@.len() && keys@[g as int] == n,
            None => forall|m: int| 0 <= m < keys@.len() ==> keys@[m] != n,
        },
{
    let mut g: usize = 0;
    while g < keys.len()
        invariant
            g <= keys@.len(),
            forall|m: int| 0 <= m < g ==> keys@[m] != n,
        decreases keys@.len() - g,
    {
        if keys[g] == n {
            return Some(g);
        }
        g = g + 1;
    }
    None
}

/// Splits one row-oriented insert into per-region inserts by a
/// partition rule.
pub struct RowSplitter<R: PartitionRule> {
    pub partition_rule: R,
}

impl<R: PartitionRule> RowSplitter<R> {
    pub fn new(partition_rule: R) -> (r: Self)
        ensures
            r.partition_rule == partition_rule,
    {
        RowSplitter { partition_rule }
    }

    /// Fans the request out: rows keep their input order within each
    /// destination region, every row goes to exactly one region, and a
    /// region appears in the result exactly when some row goes to it.
    pub fn split(&self, req: RowInsertRequest) -> (r: Result<
        RowInsertRequestSplits,
        PartitionError,
    >)
        requires
            self.partition_rule.wf(),
            match req.rows {
                Some(rows) => rows.wf(),
                None => true,
            },
        ensures
            match r {
                Ok(s) => s.wf() && Some(s@) == split_spec(self.partition_rule, req@),
                Err(_) => split_spec(self.partition_rule, req@) is None,
            },
    {
        let rule = &self.partition_rule;
        let partition_columns = rule.partition_columns();

        // No partition columns: everything goes to region 0 unchanged.
        if partition_columns.len() == 0 {
            let ghost reqv = req@;
            let mut entries: Vec<(RegionNumber, RowInsertRequest)> = Vec::new();
            entries.push((0u32, req));
            let s = RowInsertRequestSplits { entries };
            proof {
                assert(s.entries@.len() == 1);
                assert(s.entries@.last().0 == 0u32);
                assert(s.entries@.last().1@ == reqv);
                assert(s.entries@.drop_last() =~= Seq::<(RegionNumber, RowInsertRequest)>::empty());
                assert(assoc_map(s.entries@.drop_last()) =~= Map::<
                    RegionNumber,
                    RowInsertRequestV,
                >::empty());
                assert(s@ =~= Map::<RegionNumber, RowInsertRequestV>::empty().insert(0, reqv));
            }
            return Ok(s);
        }

        let ghost reqv = req@;
        let RowInsertRequest { table_name, rows: rows_opt, region_number: _ } = req;

        // No data: nothing to send anywhere.
        let rows = match rows_opt {
            Some(rows) => rows,
            None => {
                let s = RowInsertRequestSplits { entries: Vec::new() };
                proof {
                    assert(s@ =~= Map::<RegionNumber, RowInsertRequestV>::empty());
                }
                return Ok(s);
            },
        };

        let ghost rv = rows@;
        let ghost cols_spec = rule.columns_spec();
        let indexes = partition_cols_indexes(&rows.schema, &partition_columns);

        let mut keys: Vec<RegionNumber> = Vec::new();
        let mut groups: Vec<Vec<Row>> = Vec::new();
        let mut i: usize = 0;
        proof {
            assert(rv.rows.subrange(0, 0) =~= Seq::<Seq<ValueV>>::empty());
        }
        while i < rows.rows.len()
            invariant
                self.partition_rule.wf(),
                rule == &self.partition_rule,
                i <= rows.rows@.len(),
                rv == rows@,
                rv.rows.len() == rows.rows@.len(),
                rv.schema.len() == rows.schema@.len(),
                cols_spec == rule.columns_spec(),
                cols_spec.len() > 0,
                reqv == req@,
                reqv.table_name == table_name@,
                reqv.rows == Some(rv),
                forall|x: int| 0 <= x < rv.rows.len() ==> (#[trigger] rv.rows[x]).len()
                    == rv.schema.len(),
                indexes@.len() == cols_spec.len(),
                forall|k: int|
                    0 <= k < indexes@.len() ==> opt_index_view(#[trigger] indexes@[k])
                        == col_index(rv.schema, cols_spec[k]),
                keys@.len() == groups@.len(),
                forall|g1: int, g2: int|
                    0 <= g1 < g2 < keys@.len() ==> keys@[g1] != keys@[g2],
                // every processed row was placed, at the group that holds it
                forall|x: int|
                    0 <= x < i ==> (#[trigger] row_dest(self.partition_rule, rv.schema, rv.rows[x]))
                        is Some,
                // each group holds exactly its rows so far, in order
                forall|g: int|
                    0 <= g < keys@.len() ==> rows_view((#[trigger] groups@[g])@)
                        == rv.rows.subrange(0, i as int).filter(
                        dest_pred(self.partition_rule, rv.schema, keys@[g]),
                    ),
                // a key is present exactly when some processed row went there
                forall|g: int|
                    0 <= g < keys@.len() ==> exists|x: int|
                        0 <= x < i && #[trigger] row_dest(self.partition_rule, rv.schema, rv.rows[x])
                            == Some(#[trigger] keys@[g]),
                forall|x: int|
                    0 <= x < i ==> keys@.contains(
                        (#[trigger] row_dest(self.partition_rule, rv.schema, rv.rows[x])).unwrap(),
                    ),
            decreases rows.rows@.len() - i,
        {
            let row = &rows.rows[i];
            proof {
                assert(row@ == rv.rows[i as int]);
                assert(row@.len() == row.values@.len());
                assert(rv.rows[i as int].len() == rv.schema.len());
                assert forall|k: int| 0 <= k < indexes@.len() implies match #[trigger] indexes@[k] {
                    Some(j) => j < row.values@.len(),
                    None => true,
                } by {
                    lemma_col_index_in_bounds(rv.schema, cols_spec[k]);
                    assert(opt_index_view(indexes@[k]) == col_index(rv.schema, cols_spec[k]));
                }
            }
            let vals = row_partition_values(&indexes, row);
            proof {
                let pv = partition_values(rv.schema, cols_spec, rv.rows[i as int]);
                assert forall|k: int| 0 <= k < cols_spec.len() implies vals_view(vals@)[k]
                    == pv[k] by {
                    assert(vals_view(vals@)[k] == match indexes@[k] {
                        Some(j) => row@[j as int],
                        None => ValueV::Null,
                    });
                    assert(opt_index_view(indexes@[k]) == col_index(rv.schema, cols_spec[k]));
                }
                assert(vals_view(vals@) =~= pv);
            }
            let n = match rule.find_region(&vals) {
                Ok(n) => n,
                Err(e) => {
                    proof {
                        assert(row_dest(self.partition_rule, rv.schema, rv.rows[i as int])
                            is None);
                        assert(!all_rows_placed(self.partition_rule, rv));
                    }
                    return Err(e);
                },
            };
            let ghost pred_n = dest_pred(self.partition_rule, rv.schema, n);
            proof {
                assert(row_dest(self.partition_rule, rv.schema, rv.rows[i as int]) == Some(n));
                assert(rv.rows.subrange(0, i + 1) =~= rv.rows.subrange(0, i as int).push(
                    rv.rows[i as int],
                ));
            }

            // Find this region's group, or start one.
            let found = find_key(&keys, n);
            let ghost found_at: Option<int> = match found {
                Some(g) => Some(g as int),
                None => None,
            };
            let ghost keys0 = keys@;

            match found {
                Some(g) => {
                    let mut taken: Vec<Row> = Vec::new();
                    groups.set_and_swap(g, &mut taken);
                    taken.push(row.clone());
                    groups.set_and_swap(g, &mut taken);
                },
                None => {
                    let mut group: Vec<Row> = Vec::new();
                    group.push(row.clone());
                    keys.push(n);
                    groups.push(group);
                },
            }

            proof {
                let processed = rv.rows.subrange(0, i as int);
                let processed1 = rv.rows.subrange(0, i + 1);
                assert forall|g2: int| 0 <= g2 < keys@.len() implies rows_view(
                    (#[trigger] groups@[g2])@,
                ) == processed1.filter(
                    dest_pred(self.partition_rule, rv.schema, keys@[g2]),
                ) by {
                    let key = keys@[g2];
                    let pred = dest_pred(self.partition_rule, rv.schema, key);
                    lemma_filter_push(processed, rv.rows[i as int], pred);
                    if found_at == Some(g2) {
                        assert(pred(rv.rows[i as int]));
                        assert(rows_view(groups@[g2]@) =~= processed.filter(pred).push(
                            rv.rows[i as int],
                        ));
                    } else if found_at is None && g2 == keys@.len() - 1 {
                        // the new group: nothing earlier went to this region
                        assert(forall|x: int|
                            0 <= x < processed.len() ==> !pred(#[trigger] processed[x]));
                        lemma_filter_all_false(processed, pred);
                        assert(rows_view(groups@[g2]@) =~= Seq::<Seq<ValueV>>::empty().push(
                            rv.rows[i as int],
                        ));
                        assert(processed1.filter(pred) =~= Seq::<Seq<ValueV>>::empty().push(
                            rv.rows[i as int],
                        ));
                    } else {
                        assert(key != n);
                        assert(!pred(rv.rows[i as int]));
                    }
                }
                assert forall|x: int| 0 <= x < i + 1 implies keys@.contains(
                    (#[trigger] row_dest(self.partition_rule, rv.schema, rv.rows[x])).unwrap(),
                ) by {
                    if x == i {
                        if found_at is Some {
                            let g2 = found_at.unwrap();
                            assert(keys@[g2] == n);
                        } else {
                            assert(keys@[keys@.len() - 1] == n);
                        }
                    } else {
                        let d = row_dest(self.partition_rule, rv.schema, rv.rows[x]).unwrap();
                        let m = choose|m: int| 0 <= m < keys0.len() && keys0[m] == d;
                        assert(keys@[m] == d);
                    }
                }
            }
            i = i + 1;
        }

        // Materialize each group as a per-region request.
        proof {
            assert(rv.rows.subrange(0, rv.rows.len() as int) =~= rv.rows);
        }
        let mut entries: Vec<(RegionNumber, RowInsertRequest)> = Vec::new();
        let mut g: usize = 0;
        let ghost final_keys = keys@;
        let ghost final_groups = groups@;
        while g < keys.len()
            invariant
                g <= keys@.len(),
                keys@ == final_keys,
                groups@.len() == final_groups.len(),
                forall|m: int| g <= m < groups@.len() ==> groups@[m] == final_groups[m],
                keys@.len() == groups@.len(),
                rv == rows@,
                rv.schema == schema_view(rows.schema@),
                entries@.len() == g,
                forall|m: int| 0 <= m < g ==> (#[trigger] entries@[m]).0 == keys@[m],
                forall|m: int|
                    0 <= m < g ==> (#[trigger] entries@[m]).1@ == (RowInsertRequestV {
                        table_name: table_name@,
                        rows: Some(
                            RowsV { schema: rv.schema, rows: rows_view(final_groups[m]@) },
                        ),
                        region_number: keys@[m],
                    }),
            decreases keys@.len() - g,
        {
            let mut taken: Vec<Row> = Vec::new();
            groups.set_and_swap(g, &mut taken);
            let group_req = RowInsertRequest {
                table_name: table_name.clone(),
                rows: Some(Rows { schema: clone_schema(&rows.schema), rows: taken }),
                region_number: keys[g],
            };
            entries.push((keys[g], group_req));
            g = g + 1;
        }

        let s = RowInsertRequestSplits { entries };
        proof {
            assert(assoc_distinct_keys(s.entries@));
            lemma_assoc_map_props(s.entries@);
            assert(s@ =~= split_groups(self.partition_rule, reqv, rv)) by {
                let target = split_groups(self.partition_rule, reqv, rv);
                assert forall|k: RegionNumber| #[trigger]
                    s@.dom().contains(k) implies target.dom().contains(k) by {
                    let m = choose|m: int|
                        0 <= m < s.entries@.len() && (#[trigger] s.entries@[m]).0 == k;
                    assert(keys@[m] == k);
                }
                assert forall|k: RegionNumber| #[trigger]
                    target.dom().contains(k) implies s@.dom().contains(k) by {
                    let x = choose|x: int|
                        0 <= x < rv.rows.len() && #[trigger] row_dest(
                            self.partition_rule,
                            rv.schema,
                            rv.rows[x],
                        ) == Some(k);
                    let m = choose|m: int|
                        0 <= m < keys@.len() && keys@[m] == k;
                    assert((s.entries@[m]).0 == k);
                }
                assert forall|k: RegionNumber| #[trigger]
                    s@.dom().contains(k) implies s@[k] == target[k] by {
                    let m = choose|m: int|
                        0 <= m < s.entries@.len() && (#[trigger] s.entries@[m]).0 == k;
                    assert(assoc_map(s.entries@)[(s.entries@[m]).0] == s.entries@[m].1@);
                }
            }
        }
        Ok(s)
    }
}

/// The multisets of the groups for the given regions, added up.
pub open spec fn groups_multiset<R: PartitionRule>(
    rule: R,
    schema: Seq<ColumnSchemaV>,
    rows: Seq<Seq<ValueV>>,
    regions: Seq<RegionNumber>,
) -> Multiset<Seq<ValueV>>
    decreases regions.len(),
{
    if regions.len() == 0 {
        Multiset::empty()
    } else {
        groups_multiset(rule, schema, rows, regions.drop_last()).add(
            rows.filter(dest_pred(rule, schema, regions.last())).to_multiset(),
        )
    }
}

/// Equal groups per region give equal sums.
proof fn lemma_groups_multiset_congruent<R: PartitionRule>(
    rule: R,
    schema: Seq<ColumnSchemaV>,
    rows1: Seq<Seq<ValueV>>,
    rows2: Seq<Seq<ValueV>>,
    regions: Seq<RegionNumber>,
)
    requires
        forall|g: int|
            0 <= g < regions.len() ==> rows1.filter(
                dest_pred(rule, schema, #[trigger] regions[g]),
            ) == rows2.filter(dest_pred(rule, schema, regions[g])),
    ensures
        groups_multiset(rule, schema, rows1, regions) == groups_multiset(
            rule,
            schema,
            rows2,
            regions,
        ),
    decreases regions.len(),
{
    if regions.len() > 0 {
        lemma_groups_multiset_congruent(rule, schema, rows1, rows2, regions.drop_last());
        assert(regions[regions.len() - 1] == regions.last());
        assert(forall|g: int|
            0 <= g < regions.len() - 1 ==> #[trigger] regions.drop_last()[g] == regions[g]);
    }
}

/// Splitter partition law: for every batch and every rule that places
/// all its rows, the groups of the destination regions — disjoint by
/// construction — add up to exactly the input rows: every row lands in
/// exactly one group.
pub proof fn lemma_splitter_partition<R: PartitionRule>(
    rule: R,
    schema: Seq<ColumnSchemaV>,
    rows: Seq<Seq<ValueV>>,
    regions: Seq<RegionNumber>,
)
    requires
        forall|a: int, b: int| 0 <= a < b < regions.len() ==> regions[a] != regions[b],
        forall|i: int|
            0 <= i < rows.len() ==> (#[trigger] row_dest(rule, schema, rows[i])) is Some
                && regions.contains(row_dest(rule, schema, rows[i]).unwrap()),
    ensures
        groups_multiset(rule, schema, rows, regions) == rows.to_multiset(),
    decreases regions.len(),
{
    broadcast use vstd::seq_lib::group_to_multiset_ensures;

    if regions.len() == 0 {
        assert(rows =~= Seq::<Seq<ValueV>>::empty()) by {
            if rows.len() > 0 {
                assert(regions.contains(row_dest(rule, schema, rows[0]).unwrap()));
                let m = choose|m: int|
                    0 <= m < regions.len() && regions[m] == row_dest(
                        rule,
                        schema,
                        rows[0],
                    ).unwrap();
            }
        }
        assert(rows.to_multiset() =~= Multiset::<Seq<ValueV>>::empty());
    } else {
        let r_last = regions.last();
        let pred = dest_pred(rule, schema, r_last);
        let notp = |row: Seq<ValueV>| !pred(row);
        let b = rows.filter(notp);
        lemma_filter_complement_multiset(rows, pred);

        // Rows not bound for the last region are placed among the rest.
        assert forall|i: int|
            0 <= i < b.len() implies (#[trigger] row_dest(rule, schema, b[i])) is Some
            && regions.drop_last().contains(row_dest(rule, schema, b[i]).unwrap()) by {
            lemma_filter_membership(rows, notp, b[i]);
            rows.lemma_filter_pred(notp, i);
            let j = choose|j: int| 0 <= j < rows.len() && rows[j] == b[i];
            assert(row_dest(rule, schema, rows[j]) is Some);
            assert(regions.contains(row_dest(rule, schema, rows[j]).unwrap()));
            let m = choose|m: int|
                0 <= m < regions.len() && regions[m] == row_dest(rule, schema, rows[j]).unwrap();
            assert(m != regions.len() - 1);
            assert(regions.drop_last()[m] == regions[m]);
        }
        lemma_splitter_partition(rule, schema, b, regions.drop_last());

        // Per remaining region, filtering out the last region's rows
        // first changes nothing.
        assert forall|g: int|
            0 <= g < regions.drop_last().len() implies b.filter(
            dest_pred(rule, schema, #[trigger] regions.drop_last()[g]),
        ) == rows.filter(dest_pred(rule, schema, regions.drop_last()[g])) by {
            let pg = dest_pred(rule, schema, regions.drop_last()[g]);
            assert(regions.drop_last()[g] == regions[g]);
            assert(regions[g] != r_last);
            assert forall|x: Seq<ValueV>| #[trigger] pg(x) implies notp(x) by {}
            lemma_filter_filter(rows, pg, notp);
        }
        lemma_groups_multiset_congruent(rule, schema, b, rows, regions.drop_last());
        assert(groups_multiset(rule, schema, rows, regions) =~= rows.to_multiset());
    }
}

/// Splitter order law: within any destination group, rows keep their
/// input order — the element at position `k` of a group comes from
/// `filter_index` places into the input, and those places ascend with
/// `k`.
pub proof fn lemma_splitter_order<R: PartitionRule>(
    rule: R,
    rv: RowsV,
    n: RegionNumber,
    k1: int,
    k2: int,
)
    requires
        0 <= k1 < k2 < group_rows(rule, rv, n).len(),
    ensures
        ({
            let pred = dest_pred(rule, rv.schema, n);
            let i1 = crate::seqs::filter_index(rv.rows, pred, k1);
            let i2 = crate::seqs::filter_index(rv.rows, pred, k2);
            &&& 0 <= i1 < i2 < rv.rows.len()
            &&& rv.rows[i1] == group_rows(rule, rv, n)[k1]
            &&& rv.rows[i2] == group_rows(rule, rv, n)[k2]
        }),
{
    let pred = dest_pred(rule, rv.schema, n);
    crate::seqs::lemma_filter_index(rv.rows, pred, k1);
    crate::seqs::lemma_filter_index(rv.rows, pred, k2);
    crate::seqs::lemma_filter_index_increasing(rv.rows, pred, k1, k2);
}

} // verus!
