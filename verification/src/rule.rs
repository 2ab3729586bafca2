//! The partition-rule capability: the deterministic map from a row's
//! partition-column values to a region number, and the conservative map
//! from filter expressions to candidate regions.

use vstd::prelude::*;

use crate::error::PartitionError;
use crate::partition::{PartitionExpr, PartitionExprV};
use crate::storage::RegionNumber;
use crate::value::{vals_view, Value, ValueV};

verus! {

/// Index of the first element of `bounds` that satisfies `below`, or
/// `bounds.len()` when none does. Range rules place a value in the
/// partition of the first bound that lies strictly above it.
pub open spec fn first_hit<B>(below: spec_fn(B) -> bool, bounds: Seq<B>) -> int
    decreases bounds.len(),
{
    if bounds.len() == 0 {
        0
    } else if below(bounds[0]) {
        0
    } else {
        1 + first_hit(below, bounds.skip(1))
    }
}

pub proof fn lemma_first_hit_char<B>(below: spec_fn(B) -> bool, bounds: Seq<B>)
    ensures
        0 <= first_hit(below, bounds) <= bounds.len(),
        forall|j: int| 0 <= j < first_hit(below, bounds) ==> !below(#[trigger] bounds[j]),
        first_hit(below, bounds) < bounds.len() ==> below(bounds[first_hit(below, bounds)]),
    decreases bounds.len(),
{
    if bounds.len() > 0 && !below(bounds[0]) {
        lemma_first_hit_char(below, bounds.skip(1));
        assert forall|j: int| 0 <= j < first_hit(below, bounds) implies !below(
            #[trigger] bounds[j],
        ) by {
            if j >= 1 {
                assert(bounds.skip(1)[j - 1] == bounds[j]);
            }
        }
        if first_hit(below, bounds) < bounds.len() {
            assert(bounds.skip(1)[first_hit(below, bounds) - 1] == bounds[first_hit(
                below,
                bounds,
            )]);
        }
    }
}

/// `first_hit` is the unique index with nothing below it to its left
/// and, unless it is the length, a bound above it at its own place.
pub proof fn lemma_first_hit_unique<B>(below: spec_fn(B) -> bool, bounds: Seq<B>, i: int)
    requires
        0 <= i <= bounds.len(),
        forall|j: int| 0 <= j < i ==> !below(#[trigger] bounds[j]),
        i < bounds.len() ==> below(bounds[i]),
    ensures
        first_hit(below, bounds) == i,
{
    lemma_first_hit_char(below, bounds);
    let fh = first_hit(below, bounds);
    if i < fh {
        assert(!below(bounds[i]));
    } else if fh < i {
        assert(!below(bounds[fh]));
    }
}

/// Two bound lists on which the predicate agrees pointwise have the
/// same first hit.
pub proof fn lemma_first_hit_pointwise<B>(
    below: spec_fn(B) -> bool,
    s1: Seq<B>,
    s2: Seq<B>,
)
    requires
        s1.len() == s2.len(),
        forall|j: int| 0 <= j < s1.len() ==> below(#[trigger] s1[j]) == below(#[trigger] s2[j]),
    ensures
        first_hit(below, s1) == first_hit(below, s2),
    decreases s1.len(),
{
    if s1.len() > 0 && !below(s1[0]) {
        assert(forall|j: int|
            0 <= j < s1.len() - 1 ==> #[trigger] s1.skip(1)[j] == s1[j + 1] && #[trigger] s2.skip(
                1,
            )[j] == s2[j + 1]);
        lemma_first_hit_pointwise(below, s1.skip(1), s2.skip(1));
    }
}

/// A weaker predicate hits no earlier than a stronger one.
pub proof fn lemma_first_hit_mono<B>(p: spec_fn(B) -> bool, q: spec_fn(B) -> bool, bounds: Seq<B>)
    requires
        forall|b: B| #[trigger] q(b) ==> p(b),
    ensures
        first_hit(p, bounds) <= first_hit(q, bounds),
    decreases bounds.len(),
{
    lemma_first_hit_char(p, bounds);
    lemma_first_hit_char(q, bounds);
    if bounds.len() > 0 && !p(bounds[0]) {
        assert(!q(bounds[0]));
        lemma_first_hit_mono(p, q, bounds.skip(1));
    }
}

/// The deterministic partition function of one table.
///
/// `find_region` places one row by its partition-column values;
/// `find_regions_by_exprs` names a conservative superset of the regions
/// that rows satisfying the given expressions can live in.
pub trait PartitionRule: Sized {
    /// Structural well-formedness that `find_region` relies on.
    open spec fn wf(&self) -> bool {
        true
    }

    /// The partition-column names, in rule order.
    open spec fn columns_spec(&self) -> Seq<Seq<char>> {
        Seq::empty()
    }

    /// Where a row with the given partition-column values goes; `None`
    /// when the rule cannot place it.
    open spec fn find_region_spec(&self, values: Seq<ValueV>) -> Option<RegionNumber> {
        None
    }

    /// What `find_regions_by_exprs` returns; `None` when it fails.
    open spec fn regions_by_exprs_spec(&self, exprs: Seq<PartitionExprV>) -> Option<
        Seq<RegionNumber>,
    > {
        None
    }

    fn partition_columns(&self) -> (r: Vec<String>)
        requires
            self.wf(),
        ensures
            r@.map_values(|s: String| s@) == self.columns_spec(),
    ;

    fn find_region(&self, values: &Vec<Value>) -> (r: Result<RegionNumber, PartitionError>)
        requires
            self.wf(),
            values@.len() == self.columns_spec().len(),
        ensures
            match r {
                Ok(n) => self.find_region_spec(vals_view(values@)) == Some(n),
                Err(_) => self.find_region_spec(vals_view(values@)) is None,
            },
    ;

    fn find_regions_by_exprs(&self, exprs: &Vec<PartitionExpr>) -> (r: Result<
        Vec<RegionNumber>,
        PartitionError,
    >)
        requires
            self.wf(),
        ensures
            match r {
                Ok(v) => self.regions_by_exprs_spec(
                    exprs@.map_values(|e: PartitionExpr| e@),
                ) == Some(v@),
                Err(_) => self.regions_by_exprs_spec(
                    exprs@.map_values(|e: PartitionExpr| e@),
                ) is None,
            },
    ;
}

/// Copy of a region-number vector.
pub fn copy_regions(v: &Vec<RegionNumber>) -> (r: Vec<RegionNumber>)
    ensures
        r@ == v@,
{
    let mut r: Vec<RegionNumber> = Vec::new();
    let mut i: usize = 0;
    while i < v.len()
        invariant
            i <= v.len(),
            r@ =~= v@.subrange(0, i as int),
        decreases v.len() - i,
    {
        r.push(v[i]);
        i = i + 1;
    }
    proof {
        assert(r@ =~= v@);
    }
    r
}

} // verus!
