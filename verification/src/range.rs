//! The single-column range partition rule: strictly ascending bounds
//! split the value space into `bounds.len() + 1` regions, and a value
//! belongs to the region of the first bound lying strictly above it.

use vstd::prelude::*;

use crate::error::PartitionError;
use crate::partition::{PartitionExpr, PartitionExprV, Operator};
use crate::rule::{
    copy_regions, first_hit, lemma_first_hit_char, lemma_first_hit_mono, lemma_first_hit_unique,
    PartitionRule,
};
use crate::seqs::lemma_filter_push;
use crate::storage::RegionNumber;
use crate::value::{
    lemma_value_cmp_swap, lemma_value_cmp_trans, lemma_value_cmp_zero, vals_view, value_compare,
    value_le, value_lt, Value, ValueV,
};

verus! {

/// Range rule over a single partition column.
pub struct RangePartitionRule {
    pub column: String,
    pub bounds: Vec<Value>,
    pub regions: Vec<RegionNumber>,
}

impl RangePartitionRule {
    /// The bound values, as their models.
    pub open spec fn bounds_spec(&self) -> Seq<ValueV> {
        vals_view(self.bounds@)
    }

    /// Bounds are strictly ascending.
    pub open spec fn bounds_sorted(&self) -> bool {
        forall|i: int, j: int|
            0 <= i < j < self.bounds_spec().len() ==> value_lt(
                #[trigger] self.bounds_spec()[i],
                #[trigger] self.bounds_spec()[j],
            )
    }

    /// Index of the partition a value falls in: the first bound
    /// strictly above it, or the last region when none is.
    pub open spec fn locate_spec(&self, v: ValueV) -> int {
        first_hit(|b: ValueV| value_lt(v, b), self.bounds_spec())
    }

    /// Candidate regions for one expression: a single region for `=`, a
    /// prefix for `<`/`<=`, a suffix for `>`/`>=`, every region for an
    /// expression the rule cannot analyse.
    pub open spec fn regions_for_expr_spec(&self, e: PartitionExprV) -> Seq<RegionNumber> {
        if e.column != self.column@ {
            self.regions@
        } else {
            let idx = self.locate_spec(e.value);
            match e.op {
                Operator::Eq => self.regions@.subrange(idx, idx + 1),
                Operator::Lt | Operator::LtEq => self.regions@.subrange(0, idx + 1),
                Operator::Gt | Operator::GtEq => self.regions@.subrange(
                    idx,
                    self.regions@.len() as int,
                ),
                _ => self.regions@,
            }
        }
    }

    /// Candidate regions after the first `k` expressions: the full
    /// region list, narrowed by each expression in turn.
    pub open spec fn regions_upto_spec(&self, exprs: Seq<PartitionExprV>, k: int) -> Seq<
        RegionNumber,
    >
        decreases k,
    {
        if k <= 0 {
            self.regions@
        } else {
            self.regions_upto_spec(exprs, k - 1).filter(
                |r: RegionNumber| self.regions_for_expr_spec(exprs[k - 1]).contains(r),
            )
        }
    }

    pub fn new(column: String, bounds: Vec<Value>, regions: Vec<RegionNumber>) -> (r: Self)
        ensures
            r.column@ == column@,
            r.bounds == bounds,
            r.regions == regions,
    {
        RangePartitionRule { column, bounds, regions }
    }

    /// Index of the partition that holds `v`.
    fn locate(&self, v: &Value) -> (i: usize)
        requires
            self.wf(),
        ensures
            i as int == self.locate_spec(v@),
            i < self.regions@.len(),
    {
        let ghost below = |b: ValueV| value_lt(v@, b);
        let ghost bv = self.bounds_spec();
        let mut i: usize = 0;
        while i < self.bounds.len()
            invariant
                self.wf(),
                i <= self.bounds.len(),
                bv == self.bounds_spec(),
                bv.len() == self.bounds@.len(),
                below == (|b: ValueV| value_lt(v@, b)),
                forall|j: int| 0 <= j < i ==> !below(#[trigger] bv[j]),
            decreases self.bounds.len() - i,
        {
            if value_compare(v, &self.bounds[i]) < 0 {
                proof {
                    assert(below(bv[i as int]));
                    lemma_first_hit_unique(below, bv, i as int);
                }
                return i;
            }
            i = i + 1;
        }
        proof {
            lemma_first_hit_unique(below, bv, i as int);
        }
        i
    }

    /// Candidate regions for one expression.
    fn regions_for_expr(&self, e: &PartitionExpr) -> (r: Vec<RegionNumber>)
        requires
            self.wf(),
        ensures
            r@ == self.regions_for_expr_spec(e@),
    {
        if !e.column.eq(&self.column) {
            return copy_regions(&self.regions);
        }
        let n = self.regions.len();
        let idx = self.locate(&e.value);
        match e.op {
            Operator::Eq => copy_range(&self.regions, idx, idx + 1),
            Operator::Lt | Operator::LtEq => copy_range(&self.regions, 0, idx + 1),
            Operator::Gt | Operator::GtEq => copy_range(&self.regions, idx, n),
            _ => copy_regions(&self.regions),
        }
    }
}

impl PartitionRule for RangePartitionRule {
    /// One region more than bounds, so every value has a region.
    open spec fn wf(&self) -> bool {
        self.regions@.len() == self.bounds@.len() + 1
    }

    open spec fn columns_spec(&self) -> Seq<Seq<char>> {
        seq![self.column@]
    }

    open spec fn find_region_spec(&self, values: Seq<ValueV>) -> Option<RegionNumber> {
        if values.len() == 1 {
            let idx = self.locate_spec(values[0]);
            if 0 <= idx < self.regions@.len() {
                Some(self.regions@[idx])
            } else {
                None
            }
        } else {
            None
        }
    }

    open spec fn regions_by_exprs_spec(&self, exprs: Seq<PartitionExprV>) -> Option<
        Seq<RegionNumber>,
    > {
        Some(self.regions_upto_spec(exprs, exprs.len() as int))
    }

    fn partition_columns(&self) -> (r: Vec<String>)
        ensures
            r@.map_values(|s: String| s@) == self.columns_spec(),
    {
        let mut r: Vec<String> = Vec::new();
        r.push(self.column.clone());
        proof {
            assert(r@.map_values(|s: String| s@) =~= seq![self.column@]);
        }
        r
    }

    fn find_region(&self, values: &Vec<Value>) -> (r: Result<RegionNumber, PartitionError>)
        ensures
            match r {
                Ok(n) => self.find_region_spec(vals_view(values@)) == Some(n),
                Err(_) => self.find_region_spec(vals_view(values@)) is None,
            },
    {
        let idx = self.locate(&values[0]);
        proof {
            assert(vals_view(values@)[0] == values@[0]@);
        }
        Ok(self.regions[idx])
    }

    fn find_regions_by_exprs(&self, exprs: &Vec<PartitionExpr>) -> (r: Result<
        Vec<RegionNumber>,
        PartitionError,
    >)
        ensures
            match r {
                Ok(v) => self.regions_by_exprs_spec(
                    exprs@.map_values(|e: PartitionExpr| e@),
                ) == Some(v@),
                Err(_) => self.regions_by_exprs_spec(
                    exprs@.map_values(|e: PartitionExpr| e@),
                ) is None,
            },
    {
        let ghost ev = exprs@.map_values(|e: PartitionExpr| e@);
        let mut result = copy_regions(&self.regions);
        let mut k: usize = 0;
        while k < exprs.len()
            invariant
                self.wf(),
                k <= exprs.len(),
                ev == exprs@.map_values(|e: PartitionExpr| e@),
                ev.len() == exprs@.len(),
                result@ == self.regions_upto_spec(ev, k as int),
            decreases exprs.len() - k,
        {
            let keep = self.regions_for_expr(&exprs[k]);
            proof {
                assert(ev[k as int] == exprs@[k as int]@);
            }
            result = retain_contained(result, &keep);
            k = k + 1;
        }
        Ok(result)
    }
}

/// Whether a value lies in partition `i`: at or above the bound below
/// it, strictly below the bound above it.
pub open spec fn in_partition(i: int, v: ValueV, bounds: Seq<ValueV>) -> bool {
    &&& 0 <= i <= bounds.len()
    &&& (i == 0 || value_le(bounds[i - 1], v))
    &&& (i < bounds.len() ==> value_lt(v, bounds[i]))
}

/// Route exhaustiveness law: the rule built from a table route maps
/// every admissible value to exactly one region — the partitions of a
/// rule with strictly ascending bounds cover the whole value space and
/// do not overlap, and `find_region` picks exactly the partition the
/// value lies in.
pub proof fn lemma_route_exhaustiveness(rule: RangePartitionRule, v: ValueV)
    requires
        rule.wf(),
        rule.bounds_sorted(),
    ensures
        in_partition(rule.locate_spec(v), v, rule.bounds_spec()),
        forall|j: int| in_partition(j, v, rule.bounds_spec()) ==> j == rule.locate_spec(v),
        rule.find_region_spec(seq![v]) == Some(rule.regions@[rule.locate_spec(v)]),
{
    let below = |b: ValueV| value_lt(v, b);
    let bounds = rule.bounds_spec();
    lemma_first_hit_char(below, bounds);
    let i = rule.locate_spec(v);
    if i > 0 {
        assert(!below(bounds[i - 1]));
        lemma_value_cmp_swap(v, bounds[i - 1]);
    }
    assert(in_partition(i, v, bounds));
    assert forall|j: int| in_partition(j, v, bounds) implies j == i by {
        if j < i {
            // v lies below bounds[j] yet at or above every bound before i
            assert(value_lt(v, bounds[j]));
            assert(!below(bounds[j]));
        } else if j > i {
            // v lies at or above bounds[j - 1] >= bounds[i], yet below bounds[i]
            assert(value_le(bounds[j - 1], v));
            assert(below(bounds[i]));
            if i < j - 1 {
                assert(value_lt(bounds[i], bounds[j - 1]));
                lemma_value_cmp_trans(bounds[j - 1], v, bounds[i]);
                lemma_value_cmp_swap(bounds[i], bounds[j - 1]);
                lemma_value_cmp_swap(bounds[j - 1], bounds[i]);
                lemma_value_cmp_trans(bounds[i], bounds[j - 1], bounds[i]);
                lemma_value_cmp_swap(bounds[i], bounds[i]);
            } else {
                lemma_value_cmp_trans(bounds[i], v, bounds[i]);
                lemma_value_cmp_swap(bounds[i], bounds[i]);
            }
        }
    }
}

/// Whether a value satisfies a comparison against another.
pub open spec fn expr_matches(op: Operator, x: ValueV, v: ValueV) -> bool {
    match op {
        Operator::Eq => crate::value::value_cmp(x, v) == 0,
        Operator::NotEq => crate::value::value_cmp(x, v) != 0,
        Operator::Lt => crate::value::value_cmp(x, v) < 0,
        Operator::LtEq => crate::value::value_cmp(x, v) <= 0,
        Operator::Gt => crate::value::value_cmp(x, v) > 0,
        Operator::GtEq => crate::value::value_cmp(x, v) >= 0,
        _ => true,
    }
}

/// Filter lookup soundness law: the candidate regions the rule names
/// for an expression hold every value that satisfies the expression —
/// the lookup may name too many regions, never too few.
pub proof fn lemma_regions_for_expr_conservative(
    rule: RangePartitionRule,
    e: PartitionExprV,
    x: ValueV,
)
    requires
        rule.wf(),
        expr_matches(e.op, x, e.value),
    ensures
        rule.regions_for_expr_spec(e).contains(rule.regions@[rule.locate_spec(x)]),
{
    let bounds = rule.bounds_spec();
    let below_x = |b: ValueV| value_lt(x, b);
    let idx_x = rule.locate_spec(x);
    lemma_first_hit_char(below_x, bounds);
    if e.column != rule.column@ {
        assert(rule.regions_for_expr_spec(e)[idx_x] == rule.regions@[idx_x]);
    } else {
        let v = e.value;
        let below_v = |b: ValueV| value_lt(v, b);
        let idx_v = rule.locate_spec(v);
        lemma_first_hit_char(below_v, bounds);
        match e.op {
            Operator::Eq => {
                lemma_value_cmp_zero(x, v);
                assert(idx_x == idx_v);
                assert(rule.regions@.subrange(idx_v, idx_v + 1)[0] == rule.regions@[idx_x]);
            },
            Operator::Lt | Operator::LtEq => {
                // x <= v, so x lands no later than v does.
                assert forall|b: ValueV| #[trigger] below_v(b) implies below_x(b) by {
                    lemma_value_cmp_trans(x, v, b);
                }
                lemma_first_hit_mono(below_x, below_v, bounds);
                assert(idx_x <= idx_v);
                assert(rule.regions@.subrange(0, idx_v + 1)[idx_x] == rule.regions@[idx_x]);
            },
            Operator::Gt | Operator::GtEq => {
                // v <= x, so x lands no earlier than v does.
                lemma_value_cmp_swap(x, v);
                assert forall|b: ValueV| #[trigger] below_x(b) implies below_v(b) by {
                    lemma_value_cmp_trans(v, x, b);
                }
                lemma_first_hit_mono(below_v, below_x, bounds);
                assert(idx_v <= idx_x);
                assert(rule.regions@.subrange(idx_v, rule.regions@.len() as int)[idx_x - idx_v]
                    == rule.regions@[idx_x]);
            },
            _ => {
                assert(rule.regions_for_expr_spec(e)[idx_x] == rule.regions@[idx_x]);
            },
        }
    }
}

/// Copy of the element range `[from, to)` of a region-number vector.
fn copy_range(v: &Vec<RegionNumber>, from: usize, to: usize) -> (r: Vec<RegionNumber>)
    requires
        from <= to <= v@.len(),
    ensures
        r@ == v@.subrange(from as int, to as int),
{
    let mut r: Vec<RegionNumber> = Vec::new();
    let mut i: usize = from;
    while i < to
        invariant
            from <= i <= to <= v@.len(),
            r@ =~= v@.subrange(from as int, i as int),
        decreases to - i,
    {
        r.push(v[i]);
        i = i + 1;
    }
    proof {
        assert(r@ =~= v@.subrange(from as int, to as int));
    }
    r
}

/// The elements of `v`, in order, that occur in `keep`.
fn retain_contained(v: Vec<RegionNumber>, keep: &Vec<RegionNumber>) -> (r: Vec<RegionNumber>)
    ensures
        r@ == v@.filter(|x: RegionNumber| keep@.contains(x)),
{
    let ghost pred = |x: RegionNumber| keep@.contains(x);
    let mut r: Vec<RegionNumber> = Vec::new();
    let mut i: usize = 0;
    proof {
        assert(v@.subrange(0, 0) =~= Seq::<RegionNumber>::empty());
        reveal(Seq::filter);
    }
    while i < v.len()
        invariant
            i <= v.len(),
            pred == (|x: RegionNumber| keep@.contains(x)),
            r@ == v@.subrange(0, i as int).filter(pred),
        decreases v.len() - i,
    {
        proof {
            assert(v@.subrange(0, i + 1) =~= v@.subrange(0, i as int).push(v@[i as int]));
            lemma_filter_push(v@.subrange(0, i as int), v@[i as int], pred);
        }
        if contains_region(keep, v[i]) {
            let x = v[i];
            r.push(x);
        }
        i = i + 1;
    }
    proof {
        assert(v@.subrange(0, v@.len() as int) =~= v@);
    }
    r
}

/// Whether a region number occurs in a vector.
pub fn contains_region(v: &Vec<RegionNumber>, x: RegionNumber) -> (r: bool)
    ensures
        r == v@.contains(x),
{
    let mut i: usize = 0;
    while i < v.len()
        invariant
            i <= v.len(),
            forall|j: int| 0 <= j < i ==> v@[j] != x,
        decreases v.len() - i,
    {
        if v[i] == x {
            return true;
        }
        i = i + 1;
    }
    false
}

} // verus!
