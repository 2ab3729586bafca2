//! The multi-column range partition rule: bounds are lexicographically
//! ordered tuples over the partition columns, and a row belongs to the
//! partition of the first bound tuple lying strictly above its values.

use vstd::prelude::*;

use crate::error::PartitionError;
use crate::partition::{
    bound_rows_view, bounds_cmp, bounds_compare, BoundV, PartitionBound, PartitionExpr,
    PartitionExprV,
};
use crate::rule::{copy_regions, first_hit, lemma_first_hit_char, lemma_first_hit_unique, PartitionRule};
use crate::storage::RegionNumber;
use crate::value::{vals_view, Value, ValueV};

verus! {

/// A row's partition-column values read as a bound tuple, for
/// comparison against the rule's bound tuples.
pub open spec fn values_as_bounds(values: Seq<ValueV>) -> Seq<BoundV> {
    values.map_values(|v: ValueV| BoundV::Value(v))
}

/// Range rule over several partition columns, with tuple-ordered
/// bounds. The final bound tuple of a well-formed table route is all
/// `MaxValue`, so every row falls before some bound; rows falling after
/// every bound are placed in the last region.
pub struct RangeColumnsPartitionRule {
    pub columns: Vec<String>,
    pub bounds: Vec<Vec<PartitionBound>>,
    pub regions: Vec<RegionNumber>,
}

impl RangeColumnsPartitionRule {
    /// The bound tuples, as their models.
    pub open spec fn bounds_spec(&self) -> Seq<Seq<BoundV>> {
        bound_rows_view(self.bounds@)
    }

    /// Index of the partition a row falls in, before clamping to the
    /// region list.
    pub open spec fn locate_spec(&self, values: Seq<ValueV>) -> int {
        first_hit(
            |row: Seq<BoundV>| bounds_cmp(values_as_bounds(values), row) < 0,
            self.bounds_spec(),
        )
    }

    pub fn new(
        columns: Vec<String>,
        bounds: Vec<Vec<PartitionBound>>,
        regions: Vec<RegionNumber>,
    ) -> (r: Self)
        ensures
            r.columns == columns,
            r.bounds == bounds,
            r.regions == regions,
    {
        RangeColumnsPartitionRule { columns, bounds, regions }
    }
}

impl PartitionRule for RangeColumnsPartitionRule {
    /// One region per bound tuple, and at least one region.
    open spec fn wf(&self) -> bool {
        self.regions@.len() == self.bounds@.len() && self.regions@.len() >= 1
    }

    open spec fn columns_spec(&self) -> Seq<Seq<char>> {
        self.columns@.map_values(|s: String| s@)
    }

    open spec fn find_region_spec(&self, values: Seq<ValueV>) -> Option<RegionNumber> {
        if self.regions@.len() == 0 {
            None
        } else {
            let idx = self.locate_spec(values);
            if idx < self.regions@.len() {
                Some(self.regions@[idx])
            } else {
                Some(self.regions@[self.regions@.len() - 1])
            }
        }
    }

    /// Every region: the multi-column rule answers filter lookups
    /// conservatively.
    open spec fn regions_by_exprs_spec(&self, exprs: Seq<PartitionExprV>) -> Option<
        Seq<RegionNumber>,
    > {
        Some(self.regions@)
    }

    fn partition_columns(&self) -> (r: Vec<String>)
        ensures
            r@.map_values(|s: String| s@) == self.columns_spec(),
    {
        let mut r: Vec<String> = Vec::new();
        let mut i: usize = 0;
        while i < self.columns.len()
            invariant
                i <= self.columns.len(),
                r@.len() == i,
                forall|j: int| 0 <= j < i ==> r@[j]@ == self.columns@[j]@,
            decreases self.columns.len() - i,
        {
            r.push(self.columns[i].clone());
            i = i + 1;
        }
        proof {
            assert(r@.map_values(|s: String| s@) =~= self.columns_spec());
        }
        r
    }

    fn find_region(&self, values: &Vec<Value>) -> (r: Result<RegionNumber, PartitionError>)
        ensures
            match r {
                Ok(n) => self.find_region_spec(vals_view(values@)) == Some(n),
                Err(_) => self.find_region_spec(vals_view(values@)) is None,
            },
    {
        let ghost vv = vals_view(values@);
        let ghost below = |row: Seq<BoundV>| bounds_cmp(values_as_bounds(vv), row) < 0;
        let ghost rows = self.bounds_spec();

        // Read the row's values as a bound tuple once.
        let mut tuple: Vec<PartitionBound> = Vec::new();
        let mut i: usize = 0;
        while i < values.len()
            invariant
                i <= values.len(),
                tuple@.len() == i,
                forall|j: int| 0 <= j < i ==> tuple@[j]@ == BoundV::Value(values@[j]@),
            decreases values.len() - i,
        {
            tuple.push(PartitionBound::Value(values[i].clone()));
            i = i + 1;
        }
        proof {
            assert(tuple@.map_values(|x: PartitionBound| x@) =~= values_as_bounds(vv));
        }

        let mut i: usize = 0;
        while i < self.bounds.len()
            invariant
                self.wf(),
                i <= self.bounds.len(),
                rows == self.bounds_spec(),
                rows.len() == self.bounds@.len(),
                below == (|row: Seq<BoundV>| bounds_cmp(values_as_bounds(vv), row) < 0),
                vv == vals_view(values@),
                tuple@.map_values(|x: PartitionBound| x@) == values_as_bounds(vv),
                forall|j: int| 0 <= j < i ==> !below(#[trigger] rows[j]),
            decreases self.bounds.len() - i,
        {
            if bounds_compare(&tuple, &self.bounds[i]) < 0 {
                proof {
                    assert(rows[i as int] == self.bounds@[i as int]@.map_values(
                        |x: PartitionBound| x@,
                    ));
                    assert(below(rows[i as int]));
                    lemma_first_hit_unique(below, rows, i as int);
                }
                return Ok(self.regions[i]);
            }
            proof {
                assert(rows[i as int] == self.bounds@[i as int]@.map_values(
                    |x: PartitionBound| x@,
                ));
            }
            i = i + 1;
        }
        proof {
            lemma_first_hit_unique(below, rows, i as int);
        }
        Ok(self.regions[self.regions.len() - 1])
    }

    fn find_regions_by_exprs(&self, exprs: &Vec<PartitionExpr>) -> (r: Result<
        Vec<RegionNumber>,
        PartitionError,
    >)
        ensures
            match r {
                Ok(v) => self.regions_by_exprs_spec(
                    exprs@.map_values(|e: PartitionExpr| e@),
                ) == Some(v@),
                Err(_) => self.regions_by_exprs_spec(
                    exprs@.map_values(|e: PartitionExpr| e@),
                ) is None,
            },
    {
        Ok(copy_regions(&self.regions))
    }
}

/// Route exhaustiveness for the multi-column rule: a well-formed rule
/// places every tuple in exactly one region — the first bound tuple
/// above the values, or the last region when none is.
pub proof fn lemma_columns_rule_total(rule: RangeColumnsPartitionRule, values: Seq<ValueV>)
    requires
        rule.wf(),
    ensures
        rule.find_region_spec(values) is Some,
        ({
            let idx = rule.locate_spec(values);
            rule.find_region_spec(values) == Some(
                rule.regions@[if idx < rule.regions@.len() {
                    idx
                } else {
                    rule.regions@.len() - 1
                }],
            )
        }),
{
    lemma_first_hit_char(
        |row: Seq<BoundV>| bounds_cmp(values_as_bounds(values), row) < 0,
        rule.bounds_spec(),
    );
}

} // verus!
