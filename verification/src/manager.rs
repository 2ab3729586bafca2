//! The partition rule manager: resolves table routes through a cache,
//! builds partition rules from a table's sorted partitions, finds
//! regions by filters, and splits writes by the table's rule.

use vstd::prelude::*;

use vstd::multiset::Multiset;

use crate::columns::RangeColumnsPartitionRule;
use crate::error::PartitionError;
use crate::meta::MetadataStore;
use crate::partition::{PartitionDef, PartitionDefV, PartitionExpr, PartitionExprV, Operator,
    spec_is_compare_op, spec_reverse_operator, is_compare_op, reverse_operator};
use crate::range::{contains_region, RangePartitionRule};
use crate::route::{clone_routes, routes_view, Peer, RegionRoute, RegionRouteV, TableRoute};
use crate::rule::PartitionRule;
use crate::partition::{bound_rows_view, bounds_cmp, bounds_compare, BoundV, PartitionBound};
use crate::route::{spec_find_region_leader};
use crate::row::RowInsertRequest;
use crate::row_splitter::{split_spec, RowInsertRequestSplits, RowSplitter};
use crate::seqs::{assoc_distinct_keys, assoc_map, lemma_assoc_map_props, lemma_assoc_map_remove,
    lemma_filter_push};
use crate::storage::{RegionId, RegionNumber, TableId};
use crate::value::{strs_view, vals_view, Value, ValueV};

verus! {

/// The partition rule of one table: a closed sum over the two built-in
/// rule shapes.
pub enum TablePartitionRule {
    Range(RangePartitionRule),
    RangeColumns(RangeColumnsPartitionRule),
}

impl PartitionRule for TablePartitionRule {
    open spec fn wf(&self) -> bool {
        match self {
            TablePartitionRule::Range(r) => r.wf(),
            TablePartitionRule::RangeColumns(r) => r.wf(),
        }
    }

    open spec fn columns_spec(&self) -> Seq<Seq<char>> {
        match self {
            TablePartitionRule::Range(r) => r.columns_spec(),
            TablePartitionRule::RangeColumns(r) => r.columns_spec(),
        }
    }

    open spec fn find_region_spec(&self, values: Seq<ValueV>) -> Option<RegionNumber> {
        match self {
            TablePartitionRule::Range(r) => r.find_region_spec(values),
            TablePartitionRule::RangeColumns(r) => r.find_region_spec(values),
        }
    }

    open spec fn regions_by_exprs_spec(&self, exprs: Seq<PartitionExprV>) -> Option<
        Seq<RegionNumber>,
    > {
        match self {
            TablePartitionRule::Range(r) => r.regions_by_exprs_spec(exprs),
            TablePartitionRule::RangeColumns(r) => r.regions_by_exprs_spec(exprs),
        }
    }

    fn partition_columns(&self) -> (r: Vec<String>) {
        match self {
            TablePartitionRule::Range(r) => r.partition_columns(),
            TablePartitionRule::RangeColumns(r) => r.partition_columns(),
        }
    }

    fn find_region(&self, values: &Vec<Value>) -> (r: Result<RegionNumber, PartitionError>) {
        match self {
            TablePartitionRule::Range(r) => r.find_region(values),
            TablePartitionRule::RangeColumns(r) => r.find_region(values),
        }
    }

    fn find_regions_by_exprs(&self, exprs: &Vec<PartitionExpr>) -> (r: Result<
        Vec<RegionNumber>,
        PartitionError,
    >) {
        match self {
            TablePartitionRule::Range(r) => r.find_regions_by_exprs(exprs),
            TablePartitionRule::RangeColumns(r) => r.find_regions_by_exprs(exprs),
        }
    }
}

/// Table routes as a router sees them: a cached snapshot per table,
/// filled from the metadata store on a miss and dropped on
/// invalidation.
pub struct TableRoutes {
    pub store: MetadataStore,
    pub cache: Vec<(TableId, TableRoute)>,
}

/// What fetching a route does: a cached route is served as it is — it
/// may be stale until invalidated — a miss is served from the store
/// and cached, and a table unknown to both fails.
pub open spec fn get_route_outcome(
    pre: TableRoutes,
    post: TableRoutes,
    r: Result<TableRoute, PartitionError>,
    table_id: TableId,
) -> bool {
    &&& post.store == pre.store
    &&& match r {
        Ok(route) => if pre.cache_map().dom().contains(table_id) {
            route@ == pre.cache_map()[table_id] && post.cache_map() == pre.cache_map()
        } else {
            &&& pre.store@.dom().contains(table_id)
            &&& route@ == pre.store@[table_id].region_routes
            &&& post.cache_map() == pre.cache_map().insert(table_id, route@)
        },
        Err(PartitionError::FindTableRoutes { table_id: t }) => {
            &&& t == table_id
            &&& !pre.cache_map().dom().contains(table_id)
            &&& !pre.store@.dom().contains(table_id)
            &&& post.cache_map() == pre.cache_map()
        },
        Err(_) => false,
    }
}

impl TableRoutes {
    /// The cached snapshots, by table id.
    pub open spec fn cache_map(&self) -> Map<TableId, Seq<RegionRouteV>> {
        assoc_map(self.cache@)
    }

    pub open spec fn wf(&self) -> bool {
        assoc_distinct_keys(self.cache@) && self.store.wf()
    }

    pub fn new(store: MetadataStore) -> (r: Self)
        requires
            store.wf(),
        ensures
            r.wf(),
            r.store == store,
            r.cache_map() == Map::<TableId, Seq<RegionRouteV>>::empty(),
    {
        TableRoutes { store, cache: Vec::new() }
    }

    /// Index of a cached table, if any.
    fn find_cached(&self, table_id: TableId) -> (r: Option<usize>)
        ensures
            match r {
                Some(i) => i < self.cache@.len() && (self.cache@[i as int]).0 == table_id,
                None => forall|j: int|
                    0 <= j < self.cache@.len() ==> (#[trigger] self.cache@[j]).0 != table_id,
            },
    {
        let mut i: usize = 0;
        while i < self.cache.len()
            invariant
                i <= self.cache@.len(),
                forall|j: int| 0 <= j < i ==> (#[trigger] self.cache@[j]).0 != table_id,
            decreases self.cache@.len() - i,
        {
            if self.cache[i].0 == table_id {
                return Some(i);
            }
            i = i + 1;
        }
        None
    }

    /// The table's route: cached, or fetched from the store and cached.
    pub fn get_route(&mut self, table_id: TableId) -> (r: Result<TableRoute, PartitionError>)
        requires
            old(self).wf(),
        ensures
            final(self).wf(),
            get_route_outcome(*old(self), *final(self), r, table_id),
    {
        proof {
            lemma_assoc_map_props(self.cache@);
        }
        match self.find_cached(table_id) {
            Some(i) => {
                proof {
                    assert((self.cache@[i as int]).0 == table_id);
                }
                return Ok(self.cache[i].1.clone());
            },
            None => {
                proof {
                    if self.cache_map().dom().contains(table_id) {
                        let j = choose|j: int|
                            0 <= j < self.cache@.len() && (#[trigger] self.cache@[j]).0
                                == table_id;
                    }
                }
            },
        }
        let route = match self.store.get_table_route(table_id) {
            Some(v) => TableRoute { region_routes: clone_routes(&v.region_routes) },
            None => {
                return Err(PartitionError::FindTableRoutes { table_id });
            },
        };
        let result = route.clone();
        let ghost cache0 = self.cache@;
        self.cache.push((table_id, route));
        proof {
            crate::seqs::lemma_assoc_map_push(cache0, table_id, self.cache@.last().1);
            assert(self.cache@.drop_last() =~= cache0);
        }
        Ok(result)
    }

    /// Drops the table's cached route; dropping an absent one does
    /// nothing.
    pub fn invalidate_table_route(&mut self, table_id: TableId)
        requires
            old(self).wf(),
        ensures
            final(self).wf(),
            final(self).store == old(self).store,
            final(self).cache_map() == old(self).cache_map().remove(table_id),
    {
        proof {
            lemma_assoc_map_props(self.cache@);
        }
        match self.find_cached(table_id) {
            Some(i) => {
                let ghost cache0 = self.cache@;
                let _ = self.cache.remove(i);
                proof {
                    assert(self.cache@ =~= cache0.remove(i as int));
                    lemma_assoc_map_remove(cache0, i as int);
                }
            },
            None => {
                proof {
                    if self.cache_map().dom().contains(table_id) {
                        let j = choose|j: int|
                            0 <= j < self.cache@.len() && (#[trigger] self.cache@[j]).0
                                == table_id;
                    }
                    assert(self.cache_map() =~= self.cache_map().remove(table_id));
                }
            },
        }
    }
}

/// Capability to drop a table's cached route, handed to the failover
/// procedure's cache-invalidation step.
pub trait TableRouteCacheInvalidator: Sized {
    /// The state the cache relies on.
    spec fn cache_wf(&self) -> bool;

    /// Drops the table's cached route; idempotent.
    fn invalidate_table_route(&mut self, table: TableId)
        requires
            old(self).cache_wf(),
        ensures
            final(self).cache_wf(),
    ;
}

/// Manages table routes and partition rules: finds regions by values
/// for inserts, and by filters for scans and deletes.
pub struct PartitionRuleManager {
    pub table_routes: TableRoutes,
}

impl TableRouteCacheInvalidator for PartitionRuleManager {
    open spec fn cache_wf(&self) -> bool {
        self.wf()
    }

    fn invalidate_table_route(&mut self, table: TableId) {
        PartitionRuleManager::invalidate_table_route(self, table)
    }
}

/// A partition of one table: its region id and its partition
/// definition.
pub struct PartitionInfoV {
    pub id: u64,
    pub partition: PartitionDefV,
}

/// A partition of one table: its region id and its partition
/// definition.
#[derive(Debug)]
pub struct PartitionInfo {
    pub id: RegionId,
    pub partition: PartitionDef,
}

impl View for PartitionInfo {
    type V = PartitionInfoV;

    open spec fn view(&self) -> PartitionInfoV {
        PartitionInfoV { id: self.id.spec_as_u64(), partition: self.partition@ }
    }
}

impl PartitionRuleManager {
    pub fn new(table_routes: TableRoutes) -> (r: Self)
        ensures
            r.table_routes == table_routes,
    {
        PartitionRuleManager { table_routes }
    }

    pub open spec fn wf(&self) -> bool {
        self.table_routes.wf()
    }

    pub fn table_routes(&self) -> (r: &TableRoutes)
        ensures
            r == &self.table_routes,
    {
        &self.table_routes
    }

    /// The route of the given table.
    pub fn find_table_route(&mut self, table: TableId) -> (r: Result<TableRoute, PartitionError>)
        requires
            old(self).wf(),
        ensures
            final(self).wf(),
            get_route_outcome(old(self).table_routes, final(self).table_routes, r, table),
    {
        self.table_routes.get_route(table)
    }

    /// Drops the table's cached route.
    pub fn invalidate_table_route(&mut self, table: TableId)
        requires
            old(self).wf(),
        ensures
            final(self).wf(),
            final(self).table_routes.store == old(self).table_routes.store,
            final(self).table_routes.cache_map() == old(self).table_routes.cache_map().remove(
                table,
            ),
    {
        self.table_routes.invalidate_table_route(table)
    }
}

/// A filter expression as scans and deletes hand it in: comparisons of
/// a column against a literal, conjunctions and disjunctions of those,
/// and leaves the analysis cannot read.
pub enum FilterExpr {
    Column(String),
    Literal(Value),
    Binary { left: Box<FilterExpr>, op: Operator, right: Box<FilterExpr> },
    Unsupported,
}

/// Lifts a rule's region list to the set it stands for.
pub open spec fn opt_set(o: Option<Seq<RegionNumber>>) -> Option<Set<RegionNumber>> {
    match o {
        Some(s) => Some(s.to_set()),
        None => None,
    }
}

/// The candidate regions of one filter: a comparison of a column
/// against a literal asks the rule, `AND` intersects, `OR` unites, and
/// anything else falls back to every region.
pub open spec fn find_regions0_spec<R: PartitionRule>(rule: R, e: FilterExpr) -> Option<
    Set<RegionNumber>,
>
    decreases e,
{
    match e {
        FilterExpr::Binary { left, op, right } => {
            if spec_is_compare_op(op) {
                match (*left, *right) {
                    (FilterExpr::Column(c), FilterExpr::Literal(v)) => opt_set(
                        rule.regions_by_exprs_spec(
                            seq![PartitionExprV { column: c@, op, value: v@ }],
                        ),
                    ),
                    (FilterExpr::Literal(v), FilterExpr::Column(c)) => opt_set(
                        rule.regions_by_exprs_spec(
                            seq![
                                PartitionExprV {
                                    column: c@,
                                    op: spec_reverse_operator(op),
                                    value: v@,
                                },
                            ],
                        ),
                    ),
                    _ => opt_set(rule.regions_by_exprs_spec(Seq::empty())),
                }
            } else if op == Operator::And || op == Operator::Or {
                match (find_regions0_spec(rule, *left), find_regions0_spec(rule, *right)) {
                    (Some(l), Some(r)) => if op == Operator::And {
                        Some(l.intersect(r))
                    } else {
                        Some(l.union(r))
                    },
                    _ => None,
                }
            } else {
                opt_set(rule.regions_by_exprs_spec(Seq::empty()))
            }
        },
        _ => opt_set(rule.regions_by_exprs_spec(Seq::empty())),
    }
}

/// No region number occurs twice.
pub open spec fn regions_no_dup(s: Seq<RegionNumber>) -> bool {
    forall|i: int, j: int| 0 <= i < j < s.len() ==> s[i] != s[j]
}

/// Copy of `v` without repeated elements.
fn dedup_regions(v: Vec<RegionNumber>) -> (r: Vec<RegionNumber>)
    ensures
        regions_no_dup(r@),
        r@.to_set() == v@.to_set(),
{
    let mut r: Vec<RegionNumber> = Vec::new();
    let mut i: usize = 0;
    while i < v.len()
        invariant
            i <= v@.len(),
            regions_no_dup(r@),
            forall|x: RegionNumber| #[trigger]
                r@.contains(x) <==> v@.subrange(0, i as int).contains(x),
        decreases v@.len() - i,
    {
        let ghost r0 = r@;
        let x = v[i];
        if !contains_region(&r, x) {
            r.push(x);
        }
        proof {
            assert forall|y: RegionNumber| #[trigger]
                r@.contains(y) <==> v@.subrange(0, i + 1).contains(y) by {
                if r@.contains(y) {
                    let a = choose|a: int| 0 <= a < r@.len() && r@[a] == y;
                    if a < r0.len() {
                        assert(r0[a] == y);
                        assert(r0.contains(y));
                        assert(v@.subrange(0, i as int).contains(y));
                        let b = choose|b: int|
                            0 <= b < i && #[trigger] v@.subrange(0, i as int)[b] == y;
                        assert(v@.subrange(0, i + 1)[b] == y);
                    } else {
                        assert(v@.subrange(0, i + 1)[i as int] == y);
                    }
                    assert(v@.subrange(0, i + 1).contains(y));
                }
                if v@.subrange(0, i + 1).contains(y) {
                    let b = choose|b: int|
                        0 <= b < i + 1 && #[trigger] v@.subrange(0, i + 1)[b] == y;
                    if b < i {
                        assert(v@.subrange(0, i as int)[b] == y);
                        assert(v@.subrange(0, i as int).contains(y));
                        assert(r0.contains(y));
                        let a = choose|a: int| 0 <= a < r0.len() && r0[a] == y;
                        assert(r@[a] == y);
                    } else {
                        assert(y == v@[i as int]);
                        if r0.contains(x) {
                            let a = choose|a: int| 0 <= a < r0.len() && r0[a] == x;
                            assert(r@[a] == y);
                        } else {
                            assert(r@[r@.len() - 1] == y);
                        }
                    }
                    assert(r@.contains(y));
                }
            }
            if !r0.contains(x) {
                assert forall|a: int, b: int|
                    0 <= a < b < r@.len() implies r@[a] != r@[b] by {
                    if b == r@.len() - 1 {
                        assert(r0[a] != x);
                    }
                }
            }
        }
        i = i + 1;
    }
    proof {
        assert(v@.subrange(0, v@.len() as int) =~= v@);
        assert(r@.to_set() =~= v@.to_set());
    }
    r
}

/// The elements of `a` that occur in `b`, in `a`'s order.
fn intersect_regions(a: Vec<RegionNumber>, b: &Vec<RegionNumber>) -> (r: Vec<RegionNumber>)
    requires
        regions_no_dup(a@),
    ensures
        regions_no_dup(r@),
        r@.to_set() == a@.to_set().intersect(b@.to_set()),
{
    let ghost pred = |x: RegionNumber| b@.contains(x);
    let mut r: Vec<RegionNumber> = Vec::new();
    let mut i: usize = 0;
    proof {
        reveal(Seq::filter);
        assert(a@.subrange(0, 0) =~= Seq::<RegionNumber>::empty());
    }
    while i < a.len()
        invariant
            i <= a@.len(),
            regions_no_dup(a@),
            pred == (|x: RegionNumber| b@.contains(x)),
            r@ == a@.subrange(0, i as int).filter(pred),
        decreases a@.len() - i,
    {
        proof {
            assert(a@.subrange(0, i + 1) =~= a@.subrange(0, i as int).push(a@[i as int]));
            crate::seqs::lemma_filter_push(a@.subrange(0, i as int), a@[i as int], pred);
        }
        if contains_region(b, a[i]) {
            r.push(a[i]);
        }
        i = i + 1;
    }
    proof {
        assert(a@.subrange(0, a@.len() as int) =~= a@);
        assert forall|x: RegionNumber| #[trigger]
            r@.contains(x) <==> a@.contains(x) && b@.contains(x) by {
            crate::seqs::lemma_filter_membership(a@, pred, x);
        }
        assert(r@.to_set() =~= a@.to_set().intersect(b@.to_set()));
        assert forall|p: int, q: int| 0 <= p < q < r@.len() implies r@[p] != r@[q] by {
            crate::seqs::lemma_filter_no_dup(a@, pred);
        }
    }
    r
}

/// The elements of `a` followed by those of `b` not already in `a`.
fn union_regions(a: Vec<RegionNumber>, b: &Vec<RegionNumber>) -> (r: Vec<RegionNumber>)
    requires
        regions_no_dup(a@),
    ensures
        regions_no_dup(r@),
        r@.to_set() == a@.to_set().union(b@.to_set()),
{
    let ghost av = a@;
    let mut r = a;
    let mut i: usize = 0;
    while i < b.len()
        invariant
            i <= b@.len(),
            regions_no_dup(r@),
            forall|x: RegionNumber| #[trigger]
                r@.contains(x) <==> av.contains(x) || b@.subrange(0, i as int).contains(x),
        decreases b@.len() - i,
    {
        let ghost r0 = r@;
        let x = b[i];
        if !contains_region(&r, x) {
            r.push(x);
            proof {
                assert forall|p: int, q: int|
                    0 <= p < q < r@.len() implies r@[p] != r@[q] by {
                    if q == r@.len() - 1 {
                        assert(r0[p] != x);
                    }
                }
            }
        }
        proof {
            assert forall|y: RegionNumber| #[trigger]
                r@.contains(y) <==> av.contains(y) || b@.subrange(0, i + 1).contains(y) by {
                if r@.contains(y) {
                    let p = choose|p: int| 0 <= p < r@.len() && r@[p] == y;
                    if p < r0.len() {
                        assert(r0[p] == y);
                        assert(r0.contains(y));
                        if b@.subrange(0, i as int).contains(y) {
                            let q = choose|q: int|
                                0 <= q < i && #[trigger] b@.subrange(0, i as int)[q] == y;
                            assert(b@.subrange(0, i + 1)[q] == y);
                            assert(b@.subrange(0, i + 1).contains(y));
                        }
                    } else {
                        assert(b@.subrange(0, i + 1)[i as int] == y);
                        assert(b@.subrange(0, i + 1).contains(y));
                    }
                }
                if av.contains(y) || b@.subrange(0, i + 1).contains(y) {
                    if av.contains(y) {
                        assert(r0.contains(y));
                        let p = choose|p: int| 0 <= p < r0.len() && r0[p] == y;
                        assert(r@[p] == y);
                    } else {
                        let q = choose|q: int|
                            0 <= q < i + 1 && #[trigger] b@.subrange(0, i + 1)[q] == y;
                        if q < i {
                            assert(b@.subrange(0, i as int)[q] == y);
                            assert(b@.subrange(0, i as int).contains(y));
                            assert(r0.contains(y));
                            let p = choose|p: int| 0 <= p < r0.len() && r0[p] == y;
                            assert(r@[p] == y);
                        } else {
                            assert(y == b@[i as int]);
                            if r0.contains(x) {
                                let p = choose|p: int| 0 <= p < r0.len() && r0[p] == x;
                                assert(r@[p] == y);
                            } else {
                                assert(r@[r@.len() - 1] == y);
                            }
                        }
                    }
                    assert(r@.contains(y));
                }
            }
        }
        i = i + 1;
    }
    proof {
        assert(b@.subrange(0, b@.len() as int) =~= b@);
        assert(r@.to_set() =~= av.to_set().union(b@.to_set()));
    }
    r
}

/// Candidate regions of one filter, as the rule sees it.
pub fn find_regions0<R: PartitionRule>(rule: &R, filter: &FilterExpr) -> (r: Result<
    Vec<RegionNumber>,
    PartitionError,
>)
    requires
        rule.wf(),
    ensures
        match r {
            Ok(v) => regions_no_dup(v@) && Some(v@.to_set()) == find_regions0_spec(
                *rule,
                *filter,
            ),
            Err(_) => find_regions0_spec(*rule, *filter) is None,
        },
    decreases filter,
{
    match filter {
        FilterExpr::Binary { left, op, right } => {
            if is_compare_op(op) {
                let column_op_value: Option<(&String, Operator, &Value)> = match (
                    &**left,
                    &**right,
                ) {
                    (FilterExpr::Column(c), FilterExpr::Literal(v)) => Some((c, *op, v)),
                    (FilterExpr::Literal(v), FilterExpr::Column(c)) => Some(
                        (c, reverse_operator(op), v),
                    ),
                    _ => None,
                };
                if let Some((column, op2, value)) = column_op_value {
                    let mut exprs: Vec<PartitionExpr> = Vec::new();
                    exprs.push(PartitionExpr::new(column.clone(), op2, value.clone()));
                    proof {
                        assert(exprs@.map_values(|e: PartitionExpr| e@) =~= seq![
                            PartitionExprV { column: column@, op: op2, value: value@ },
                        ]);
                    }
                    let regions = match rule.find_regions_by_exprs(&exprs) {
                        Ok(v) => v,
                        Err(e) => {
                            return Err(e);
                        },
                    };
                    return Ok(dedup_regions(regions));
                }
            } else if matches!(op, Operator::And | Operator::Or) {
                let left_regions = match find_regions0(rule, left) {
                    Ok(v) => v,
                    Err(e) => {
                        return Err(e);
                    },
                };
                let right_regions = match find_regions0(rule, right) {
                    Ok(v) => v,
                    Err(e) => {
                        return Err(e);
                    },
                };
                let regions = match op {
                    Operator::And => intersect_regions(left_regions, &right_regions),
                    _ => union_regions(left_regions, &right_regions),
                };
                return Ok(regions);
            }
            // An unreadable comparison: every region can match.
            let exprs: Vec<PartitionExpr> = Vec::new();
            proof {
                assert(exprs@.map_values(|e: PartitionExpr| e@) =~= Seq::<PartitionExprV>::empty());
            }
            match rule.find_regions_by_exprs(&exprs) {
                Ok(v) => Ok(dedup_regions(v)),
                Err(e) => Err(e),
            }
        },
        _ => {
            // Not a supported partition expression: every region can
            // match, as a safety hatch.
            let exprs: Vec<PartitionExpr> = Vec::new();
            proof {
                assert(exprs@.map_values(|e: PartitionExpr| e@) =~= Seq::<PartitionExprV>::empty());
            }
            match rule.find_regions_by_exprs(&exprs) {
                Ok(v) => Ok(dedup_regions(v)),
                Err(e) => Err(e),
            }
        },
    }
}

/// The route a fetch resolves to: the cached snapshot when there is
/// one, else the stored value.
pub open spec fn resolved_route(tr: TableRoutes, table_id: TableId) -> Option<Seq<RegionRouteV>> {
    if tr.cache_map().dom().contains(table_id) {
        Some(tr.cache_map()[table_id])
    } else if tr.store@.dom().contains(table_id) {
        Some(tr.store@[table_id].region_routes)
    } else {
        None
    }
}

/// Candidate regions after the first filter and `k` of the rest,
/// intersected in order with an early stop once the set is empty.
pub open spec fn filters_regions_spec<R: PartitionRule>(
    rule: R,
    filters: Seq<FilterExpr>,
    k: int,
) -> Option<Set<RegionNumber>>
    decreases k,
{
    if k <= 0 {
        find_regions0_spec(rule, filters[0])
    } else {
        match filters_regions_spec(rule, filters, k - 1) {
            None => None,
            Some(acc) => if acc =~= Set::<RegionNumber>::empty() {
                Some(acc)
            } else {
                match find_regions0_spec(rule, filters[k]) {
                    None => None,
                    Some(s) => Some(acc.intersect(s)),
                }
            },
        }
    }
}

/// The candidate regions of a conjunctive filter list: every filter's
/// candidates intersected; an empty list leaves every region.
pub open spec fn filters_final_spec<R: PartitionRule>(rule: R, filters: Seq<FilterExpr>) -> Option<
    Set<RegionNumber>,
> {
    if filters.len() == 0 {
        opt_set(rule.regions_by_exprs_spec(Seq::empty()))
    } else {
        filters_regions_spec(rule, filters, filters.len() - 1)
    }
}

/// Once the intersection is empty it stays empty.
proof fn lemma_filters_empty_stays<R: PartitionRule>(
    rule: R,
    filters: Seq<FilterExpr>,
    k: int,
    k2: int,
)
    requires
        k <= k2,
        filters_regions_spec(rule, filters, k) == Some(Set::<RegionNumber>::empty()),
    ensures
        filters_regions_spec(rule, filters, k2) == Some(Set::<RegionNumber>::empty()),
    decreases k2 - k,
{
    if k < k2 {
        lemma_filters_empty_stays(rule, filters, k, k2 - 1);
    }
}

impl PartitionRuleManager {
    /// Regions a conjunctive filter list can reach: each filter's
    /// candidate regions, intersected; an empty final set means no
    /// region can satisfy the filters and is an error.
    pub fn find_regions_by_filters<R: PartitionRule>(
        &self,
        partition_rule: &R,
        filters: &Vec<FilterExpr>,
    ) -> (r: Result<Vec<RegionNumber>, PartitionError>)
        requires
            partition_rule.wf(),
        ensures
            match r {
                Ok(v) => {
                    &&& regions_no_dup(v@)
                    &&& Some(v@.to_set()) == filters_final_spec(*partition_rule, filters@)
                    &&& v@.len() > 0
                },
                Err(e) => filters_final_spec(*partition_rule, filters@) is None || (e
                    == PartitionError::FindRegions && filters_final_spec(
                    *partition_rule,
                    filters@,
                ) == Some(Set::<RegionNumber>::empty())),
            },
    {
        let ghost rule = *partition_rule;
        let mut target: Vec<RegionNumber>;
        if filters.len() == 0 {
            let exprs: Vec<PartitionExpr> = Vec::new();
            proof {
                assert(exprs@.map_values(|e: PartitionExpr| e@) =~= Seq::<
                    PartitionExprV,
                >::empty());
            }
            target = match partition_rule.find_regions_by_exprs(&exprs) {
                Ok(v) => dedup_regions(v),
                Err(e) => {
                    return Err(e);
                },
            };
        } else {
            target = match find_regions0(partition_rule, &filters[0]) {
                Ok(v) => v,
                Err(e) => {
                    proof {
                        if filters@.len() > 1 {
                            assert(filters_regions_spec(rule, filters@, 0) is None);
                            lemma_filters_none_stays(rule, filters@, 0, filters@.len() - 1);
                        }
                    }
                    return Err(e);
                },
            };
            let mut k: usize = 1;
            while k < filters.len() && target.len() > 0
                invariant
                    1 <= k <= filters@.len(),
                    rule == *partition_rule,
                    rule.wf(),
                    regions_no_dup(target@),
                    Some(target@.to_set()) == filters_regions_spec(rule, filters@, k - 1),
                    k < filters@.len() || target@.len() == 0 ==> true,
                decreases filters@.len() - k,
            {
                let regions = match find_regions0(partition_rule, &filters[k]) {
                    Ok(v) => v,
                    Err(e) => {
                        proof {
                            assert(!(target@.to_set() =~= Set::<RegionNumber>::empty())) by {
                                assert(target@.to_set().contains(target@[0]));
                            }
                            assert(filters_regions_spec(rule, filters@, k as int) is None);
                            lemma_filters_none_stays(
                                rule,
                                filters@,
                                k as int,
                                filters@.len() - 1,
                            );
                        }
                        return Err(e);
                    },
                };
                proof {
                    assert(!(target@.to_set() =~= Set::<RegionNumber>::empty())) by {
                        assert(target@.to_set().contains(target@[0]));
                    }
                }
                target = intersect_regions(target, &regions);
                k = k + 1;
            }
            proof {
                if k < filters@.len() {
                    // stopped early on an empty set
                    assert(target@.len() == 0);
                    assert(target@.to_set() =~= Set::<RegionNumber>::empty());
                    lemma_filters_empty_stays(rule, filters@, k - 1, filters@.len() - 1);
                }
            }
        }
        if target.len() == 0 {
            proof {
                assert(target@.to_set() =~= Set::<RegionNumber>::empty());
            }
            return Err(PartitionError::FindRegions);
        }
        proof {
            assert(target@.to_set().contains(target@[0]));
        }
        Ok(target)
    }
}

/// How a route fetch leaves the cache: untouched on a hit or a miss
/// without stored route, filled on a miss with one.
pub open spec fn cache_after_fetch(pre: TableRoutes, post: TableRoutes, table_id: TableId) -> bool {
    &&& post.store == pre.store
    &&& post.cache_map() == (if pre.cache_map().dom().contains(table_id) || resolved_route(
        pre,
        table_id,
    ) is None {
        pre.cache_map()
    } else {
        pre.cache_map().insert(table_id, resolved_route(pre, table_id).unwrap())
    })
}

/// View of a partition list.
pub open spec fn parts_view(s: Seq<PartitionInfo>) -> Seq<PartitionInfoV> {
    s.map_values(|p: PartitionInfo| p@)
}

/// Partitions ascend by their bound tuples.
pub open spec fn parts_sorted(ps: Seq<PartitionInfoV>) -> bool {
    forall|i: int, j: int|
        0 <= i < j < ps.len() ==> bounds_cmp(
            (#[trigger] ps[i]).partition.bounds,
            (#[trigger] ps[j]).partition.bounds,
        ) <= 0
}

/// Every route entry carries a partition definition.
pub open spec fn all_have_partitions(routes: Seq<RegionRouteV>) -> bool {
    forall|j: int| 0 <= j < routes.len() ==> (#[trigger] routes[j]).region.partition is Some
}

/// The partitions a route describes, in route order.
pub open spec fn route_infos(routes: Seq<RegionRouteV>) -> Seq<PartitionInfoV> {
    routes.map_values(
        |r: RegionRouteV| PartitionInfoV { id: r.region.id, partition: r.region.partition.unwrap() },
    )
}

/// All partitions agree on their partition columns.
pub open spec fn same_columns(ps: Seq<PartitionInfoV>) -> bool {
    forall|i: int, j: int|
        0 <= i < ps.len() && 0 <= j < ps.len() ==> (#[trigger] ps[i]).partition.partition_columns
            == (#[trigger] ps[j]).partition.partition_columns
}

/// What finding a table's partitions does: the route's partitions,
/// sorted by bounds, all sharing one partition-column list.
pub open spec fn partitions_outcome(
    pre: TableRoutes,
    r: Result<Vec<PartitionInfo>, PartitionError>,
    table_id: TableId,
) -> bool {
    let resolved = resolved_route(pre, table_id);
    match r {
        Ok(parts) => {
            &&& resolved is Some
            &&& resolved.unwrap().len() > 0
            &&& all_have_partitions(resolved.unwrap())
            &&& parts_sorted(parts_view(parts@))
            &&& parts_view(parts@).to_multiset() == route_infos(resolved.unwrap()).to_multiset()
            &&& same_columns(parts_view(parts@))
        },
        Err(PartitionError::FindTableRoutes { table_id: t }) => t == table_id && (resolved is None
            || resolved.unwrap().len() == 0),
        Err(PartitionError::FindRegionRoutes { region_id, table_id: t }) => {
            &&& t == table_id
            &&& resolved is Some
            &&& exists|j: int|
                0 <= j < resolved.unwrap().len() && (#[trigger] resolved.unwrap()[j]).region.partition
                    is None && region_id == resolved.unwrap()[j].region.id
        },
        Err(PartitionError::InvalidTableRouteData { table_id: t }) => {
            &&& t == table_id
            &&& resolved is Some
            &&& all_have_partitions(resolved.unwrap())
            &&& !same_columns(route_infos(resolved.unwrap()))
        },
        Err(_) => false,
    }
}

/// Sorts partitions ascending by their bound tuples; a permutation of
/// the input.
fn sort_partitions(v: Vec<PartitionInfo>) -> (r: Vec<PartitionInfo>)
    ensures
        parts_sorted(parts_view(r@)),
        parts_view(r@).to_multiset() == parts_view(v@).to_multiset(),
        r@.len() == v@.len(),
{
    let ghost total = parts_view(v@).to_multiset();
    let mut rest = v;
    let mut out: Vec<PartitionInfo> = Vec::new();
    proof {
        broadcast use vstd::seq_lib::group_to_multiset_ensures;

        assert(parts_view(out@).to_multiset() =~= Multiset::<PartitionInfoV>::empty());
        assert(parts_view(out@).to_multiset().add(parts_view(rest@).to_multiset()) =~= total);
    }
    while rest.len() > 0
        invariant
            parts_sorted(parts_view(out@)),
            parts_view(out@).to_multiset().add(parts_view(rest@).to_multiset()) == total,
            forall|a: int, b: int|
                0 <= a < out@.len() && 0 <= b < rest@.len() ==> bounds_cmp(
                    (#[trigger] parts_view(out@)[a]).partition.bounds,
                    (#[trigger] parts_view(rest@)[b]).partition.bounds,
                ) <= 0,
            out@.len() + rest@.len() == v@.len(),
        decreases rest@.len(),
    {
        // Index of a minimal remaining partition.
        let mut m: usize = 0;
        let mut j: usize = 1;
        proof {
            crate::partition::lemma_bounds_cmp_swap(
                parts_view(rest@)[0].partition.bounds,
                parts_view(rest@)[0].partition.bounds,
            );
        }
        while j < rest.len()
            invariant
                rest@.len() > 0,
                m < j <= rest@.len() || (m == 0 && j <= rest@.len()),
                m < rest@.len(),
                forall|x: int|
                    0 <= x < j ==> bounds_cmp(
                        parts_view(rest@)[m as int].partition.bounds,
                        (#[trigger] parts_view(rest@)[x]).partition.bounds,
                    ) <= 0,
            decreases rest@.len() - j,
        {
            if bounds_compare(
                rest[j].partition.partition_bounds(),
                rest[m].partition.partition_bounds(),
            ) < 0 {
                proof {
                    let rv = parts_view(rest@);
                    assert(rv[j as int].partition.bounds == rest@[j as int].partition@.bounds);
                    assert(rv[m as int].partition.bounds == rest@[m as int].partition@.bounds);
                    crate::partition::lemma_bounds_cmp_swap(
                        rv[j as int].partition.bounds,
                        rv[m as int].partition.bounds,
                    );
                    crate::partition::lemma_bounds_cmp_swap(
                        rv[j as int].partition.bounds,
                        rv[j as int].partition.bounds,
                    );
                    assert forall|x: int|
                        0 <= x < j implies bounds_cmp(
                        rv[j as int].partition.bounds,
                        (#[trigger] rv[x]).partition.bounds,
                    ) <= 0 by {
                        crate::partition::lemma_bounds_cmp_trans(
                            rv[j as int].partition.bounds,
                            rv[m as int].partition.bounds,
                            rv[x].partition.bounds,
                        );
                    }
                }
                m = j;
            } else {
                proof {
                    let rv = parts_view(rest@);
                    assert(rv[j as int].partition.bounds == rest@[j as int].partition@.bounds);
                    assert(rv[m as int].partition.bounds == rest@[m as int].partition@.bounds);
                    crate::partition::lemma_bounds_cmp_swap(
                        rv[j as int].partition.bounds,
                        rv[m as int].partition.bounds,
                    );
                }
            }
            j = j + 1;
        }
        let ghost rest0 = rest@;
        let ghost out0 = out@;
        let item = rest.remove(m);
        out.push(item);
        proof {
            broadcast use vstd::seq_lib::group_to_multiset_ensures;

            let itemv = rest0[m as int]@;
            assert(parts_view(rest@) =~= parts_view(rest0).remove(m as int));
            assert(parts_view(out@) =~= parts_view(out0).push(itemv));
            assert(parts_view(rest0)[m as int] == itemv);
            assert(parts_view(rest0).to_multiset().count(itemv) >= 1) by {
                assert(parts_view(rest0).contains(itemv));
            }
            assert(parts_view(out@).to_multiset().add(parts_view(rest@).to_multiset())
                =~= total);
            assert forall|a: int, b: int|
                0 <= a < out@.len() && 0 <= b < rest@.len() implies bounds_cmp(
                (#[trigger] parts_view(out@)[a]).partition.bounds,
                (#[trigger] parts_view(rest@)[b]).partition.bounds,
            ) <= 0 by {
                let old_b: int = if b < m { b } else { b + 1 };
                assert(parts_view(rest@)[b] == parts_view(rest0)[old_b]);
                if a < out0.len() {
                    assert(parts_view(out@)[a] == parts_view(out0)[a]);
                } else {
                    assert(parts_view(out@)[a] == itemv);
                }
            }
            assert forall|a: int, b: int|
                0 <= a < b < out@.len() implies bounds_cmp(
                (#[trigger] parts_view(out@)[a]).partition.bounds,
                (#[trigger] parts_view(out@)[b]).partition.bounds,
            ) <= 0 by {
                if b == out@.len() - 1 {
                    assert(parts_view(out@)[a] == parts_view(out0)[a]);
                    assert(parts_view(out@)[b] == itemv);
                    assert(bounds_cmp(
                        parts_view(out0)[a].partition.bounds,
                        parts_view(rest0)[m as int].partition.bounds,
                    ) <= 0);
                }
            }
        }
    }
    proof {
        broadcast use vstd::multiset::group_multiset_axioms;

        assert(parts_view(rest@) =~= Seq::<PartitionInfoV>::empty());
        assert(parts_view(rest@).to_multiset() =~= Multiset::<PartitionInfoV>::empty());
        assert(parts_view(out@).to_multiset() =~= total);
    }
    out
}

/// The single-column bounds a sorted partition list yields: the
/// concrete values of each partition's first bound, with the trailing
/// `MaxValue` entries dropped.
pub open spec fn range_bounds_spec(ps: Seq<PartitionInfoV>, k: int) -> Seq<ValueV>
    decreases k,
{
    if k <= 0 {
        Seq::empty()
    } else {
        let pre = range_bounds_spec(ps, k - 1);
        if ps[k - 1].partition.bounds.len() == 0 {
            pre
        } else {
            match ps[k - 1].partition.bounds[0] {
                BoundV::Value(v) => pre.push(v),
                BoundV::MaxValue => pre,
            }
        }
    }
}

/// The region numbers of a partition list, in order.
pub open spec fn part_regions_spec(ps: Seq<PartitionInfoV>) -> Seq<RegionNumber> {
    ps.map_values(|p: PartitionInfoV| (p.id % 0x1_0000_0000) as u32)
}

/// Whether `rule` is the rule the sorted partition list builds: a
/// single partition column gives a range rule with the trailing
/// `MaxValue` dropped, several give a range-columns rule over the full
/// bound tuples.
pub open spec fn rule_built_from(ps: Seq<PartitionInfoV>, rule: TablePartitionRule) -> bool {
    ps.len() > 0 && match rule {
        TablePartitionRule::Range(rr) => {
            &&& ps[0].partition.partition_columns.len() == 1
            &&& rr.column@ == ps[0].partition.partition_columns[0]
            &&& vals_view(rr.bounds@) == range_bounds_spec(ps, ps.len() as int)
            &&& rr.regions@ == part_regions_spec(ps)
        },
        TablePartitionRule::RangeColumns(rc) => {
            &&& ps[0].partition.partition_columns.len() != 1
            &&& strs_view(rc.columns@) == ps[0].partition.partition_columns
            &&& bound_rows_view(rc.bounds@) == ps.map_values(
                |p: PartitionInfoV| p.partition.bounds,
            )
            &&& rc.regions@ == part_regions_spec(ps)
        },
    }
}

/// A sorted permutation of the route's partitions, all sharing one
/// partition-column list.
pub open spec fn sorted_parts_of(routes: Seq<RegionRouteV>, ps: Seq<PartitionInfoV>) -> bool {
    &&& parts_sorted(ps)
    &&& ps.to_multiset() == route_infos(routes).to_multiset()
    &&& same_columns(ps)
}

/// What building a table's rule does: the rule of some sorted
/// arrangement of the table's partitions, well-formed.
pub open spec fn built_rule_ok(pre: TableRoutes, table_id: TableId, rule: TablePartitionRule) -> bool {
    let resolved = resolved_route(pre, table_id);
    &&& resolved is Some
    &&& resolved.unwrap().len() > 0
    &&& all_have_partitions(resolved.unwrap())
    &&& rule.wf()
    &&& exists|ps: Seq<PartitionInfoV>| #[trigger]
        sorted_parts_of(resolved.unwrap(), ps) && rule_built_from(ps, rule)
}

/// How building a table's rule fails.
pub open spec fn rule_failed(pre: TableRoutes, e: PartitionError, table_id: TableId) -> bool {
    let resolved = resolved_route(pre, table_id);
    match e {
        PartitionError::FindTableRoutes { table_id: t } => t == table_id && (resolved is None
            || resolved.unwrap().len() == 0),
        PartitionError::FindRegionRoutes { region_id, table_id: t } => {
            &&& t == table_id
            &&& resolved is Some
            &&& exists|j: int|
                0 <= j < resolved.unwrap().len() && (#[trigger] resolved.unwrap()[j]).region.partition
                    is None && region_id == resolved.unwrap()[j].region.id
        },
        PartitionError::InvalidTableRouteData { table_id: t } => {
            &&& t == table_id
            &&& resolved is Some
            &&& all_have_partitions(resolved.unwrap())
            &&& (!same_columns(route_infos(resolved.unwrap())) || exists|
                ps: Seq<PartitionInfoV>,
            | #[trigger]
                sorted_parts_of(resolved.unwrap(), ps) && ps.len() > 0
                    && ps[0].partition.partition_columns.len() == 1 && range_bounds_spec(
                    ps,
                    ps.len() as int,
                ).len() + 1 != ps.len())
        },
        _ => false,
    }
}

impl PartitionRuleManager {
    /// The leader peer of every region of the table, in route order.
    pub fn find_table_region_leaders(&mut self, table_id: TableId) -> (r: Result<
        Vec<Peer>,
        PartitionError,
    >)
        requires
            old(self).wf(),
        ensures
            final(self).wf(),
            cache_after_fetch(old(self).table_routes, final(self).table_routes, table_id),
            ({
                let resolved = resolved_route(old(self).table_routes, table_id);
                match r {
                    Ok(peers) => {
                        &&& resolved is Some
                        &&& peers@.len() == resolved.unwrap().len()
                        &&& forall|i: int|
                            0 <= i < peers@.len() ==> Some((#[trigger] peers@[i])@) == resolved
                                .unwrap()[i].leader_peer
                    },
                    Err(PartitionError::FindLeader { region_id, table_id: t }) => {
                        &&& t == table_id
                        &&& resolved is Some
                        &&& exists|i: int|
                            0 <= i < resolved.unwrap().len() && (#[trigger] resolved.unwrap()[
                                i]).leader_peer is None && region_id == resolved.unwrap()[
                                i].region.id
                    },
                    Err(PartitionError::FindTableRoutes { table_id: t }) => t == table_id
                        && resolved is None,
                    Err(_) => false,
                }
            }),
    {
        let route = match self.table_routes.get_route(table_id) {
            Ok(route) => route,
            Err(e) => {
                return Err(e);
            },
        };
        let ghost rv = route@;
        let ghost tr_after = self.table_routes;
        proof {
            assert(cache_after_fetch(old(self).table_routes, tr_after, table_id));
            assert(resolved_route(old(self).table_routes, table_id) == Some(rv));
        }
        let mut peers: Vec<Peer> = Vec::new();
        let mut i: usize = 0;
        while i < route.region_routes.len()
            invariant
                self.table_routes == tr_after,
                self.wf(),
                cache_after_fetch(old(self).table_routes, tr_after, table_id),
                resolved_route(old(self).table_routes, table_id) == Some(rv),
                rv == route@,
                rv.len() == route.region_routes@.len(),
                i <= rv.len(),
                peers@.len() == i,
                forall|j: int|
                    0 <= j < i ==> Some((#[trigger] peers@[j])@) == rv[j].leader_peer,
            decreases rv.len() - i,
        {
            match &route.region_routes[i].leader_peer {
                Some(p) => {
                    peers.push(p.clone());
                },
                None => {
                    proof {
                        assert(rv[i as int].leader_peer is None);
                    }
                    return Err(
                        PartitionError::FindLeader {
                            region_id: route.region_routes[i].region.id,
                            table_id,
                        },
                    );
                },
            }
            i = i + 1;
        }
        Ok(peers)
    }

    /// The table's partitions, sorted by their bound tuples; fails when
    /// the route is missing or empty, a region has no partition, or the
    /// regions disagree on partition columns.
    pub fn find_table_partitions(&mut self, table_id: TableId) -> (r: Result<
        Vec<PartitionInfo>,
        PartitionError,
    >)
        requires
            old(self).wf(),
        ensures
            final(self).wf(),
            cache_after_fetch(old(self).table_routes, final(self).table_routes, table_id),
            partitions_outcome(old(self).table_routes, r, table_id),
    {
        let route = match self.table_routes.get_route(table_id) {
            Ok(route) => route,
            Err(e) => {
                return Err(e);
            },
        };
        if route.region_routes.len() == 0 {
            return Err(PartitionError::FindTableRoutes { table_id });
        }
        let ghost rv = route@;
        let ghost tr_after = self.table_routes;
        proof {
            assert(cache_after_fetch(old(self).table_routes, tr_after, table_id));
            assert(resolved_route(old(self).table_routes, table_id) == Some(rv));
        }
        let mut partitions: Vec<PartitionInfo> = Vec::new();
        let mut i: usize = 0;
        while i < route.region_routes.len()
            invariant
                self.table_routes == tr_after,
                self.wf(),
                cache_after_fetch(old(self).table_routes, tr_after, table_id),
                resolved_route(old(self).table_routes, table_id) == Some(rv),
                rv == route@,
                rv.len() == route.region_routes@.len(),
                i <= rv.len(),
                partitions@.len() == i,
                forall|j: int| 0 <= j < i ==> (#[trigger] rv[j]).region.partition is Some,
                forall|j: int|
                    0 <= j < i ==> #[trigger] parts_view(partitions@)[j] == route_infos(rv)[j],
            decreases rv.len() - i,
        {
            let entry = &route.region_routes[i];
            let ghost parts0 = partitions@;
            match &entry.region.partition {
                Some(p) => {
                    partitions.push(
                        PartitionInfo {
                            id: RegionId::from_u64(entry.region.id),
                            partition: p.clone(),
                        },
                    );
                    proof {
                        assert(parts_view(partitions@)[i as int] == route_infos(rv)[i as int]);
                        assert forall|j: int|
                            0 <= j < i + 1 implies #[trigger] parts_view(partitions@)[j]
                            == route_infos(rv)[j] by {
                            if j < i {
                                assert(partitions@[j] == parts0[j]);
                                assert(parts_view(parts0)[j] == route_infos(rv)[j]);
                            }
                        }
                    }
                },
                None => {
                    proof {
                        assert((rv[i as int]).region.partition is None);
                    }
                    return Err(
                        PartitionError::FindRegionRoutes {
                            region_id: entry.region.id,
                            table_id,
                        },
                    );
                },
            }
            i = i + 1;
        }
        proof {
            assert(parts_view(partitions@) =~= route_infos(rv));
        }
        let partitions = sort_partitions(partitions);

        // All regions must agree on the partition columns.
        let mut k: usize = 1;
        while k < partitions.len()
            invariant
                self.table_routes == tr_after,
                self.wf(),
                cache_after_fetch(old(self).table_routes, tr_after, table_id),
                resolved_route(old(self).table_routes, table_id) == Some(rv),
                rv.len() > 0,
                all_have_partitions(rv),
                parts_sorted(parts_view(partitions@)),
                parts_view(partitions@).to_multiset() == route_infos(rv).to_multiset(),
                partitions@.len() == rv.len(),
                1 <= k <= partitions@.len() || (partitions@.len() == 0 && k == 1),
                forall|a: int, b: int|
                    0 <= a < k && 0 <= b < k ==> (#[trigger] parts_view(partitions@)[
                        a]).partition.partition_columns == (#[trigger] parts_view(partitions@)[
                        b]).partition.partition_columns,
            decreases partitions@.len() - k,
        {
            if !columns_equal(
                partitions[k].partition.partition_columns(),
                partitions[0].partition.partition_columns(),
            ) {
                proof {
                    assert(parts_view(partitions@)[k as int].partition.partition_columns
                        != parts_view(partitions@)[0].partition.partition_columns);
                    lemma_same_columns_transfer(
                        rv,
                        parts_view(partitions@),
                        k as int,
                        0,
                    );
                }
                return Err(PartitionError::InvalidTableRouteData { table_id });
            }
            proof {
                assert(parts_view(partitions@)[k as int].partition.partition_columns
                    == parts_view(partitions@)[0].partition.partition_columns);
            }
            k = k + 1;
        }
        Ok(partitions)
    }
}

/// Whether the route leads the region to a leader with the given id.
pub open spec fn region_led_by(routes: Seq<RegionRouteV>, rn: RegionNumber, d: u64) -> bool {
    match spec_find_region_leader(routes, rn) {
        Some(p) => p.id == d,
        None => false,
    }
}

/// Whether some collected leader leads the region.
pub open spec fn leader_covered(
    routes: Seq<RegionRouteV>,
    rn: RegionNumber,
    leaders: Seq<Peer>,
) -> bool {
    exists|a: int| 0 <= a < leaders.len() && region_led_by(routes, rn, (#[trigger] leaders[a]).id)
}

/// Whether some group of the distribution is led by the region's
/// leader.
pub open spec fn dist_covered(
    routes: Seq<RegionRouteV>,
    rn: RegionNumber,
    dist: Seq<(Peer, Vec<RegionNumber>)>,
) -> bool {
    exists|a: int| 0 <= a < dist.len() && region_led_by(routes, rn, (#[trigger] dist[a]).0.id)
}

/// Every requested region has a leader in the route, or the first one
/// without is named.
fn check_region_leaders(route: &TableRoute, regions: &Vec<RegionNumber>) -> (r: Result<
    (),
    RegionNumber,
>)
    ensures
        match r {
            Ok(()) => forall|i: int|
                0 <= i < regions@.len() ==> spec_find_region_leader(
                    route@,
                    #[trigger] regions@[i],
                ) is Some,
            Err(region) => regions@.contains(region) && spec_find_region_leader(route@, region)
                is None,
        },
{
    let mut i: usize = 0;
    while i < regions.len()
        invariant
            i <= regions@.len(),
            forall|j: int|
                0 <= j < i ==> spec_find_region_leader(route@, #[trigger] regions@[j]) is Some,
        decreases regions@.len() - i,
    {
        match route.find_region_leader(regions[i]) {
            Some(_) => {},
            None => {
                return Err(regions[i]);
            },
        }
        i = i + 1;
    }
    Ok(())
}

/// The distinct leaders of the requested regions, in order of first
/// appearance.
#[verifier::rlimit(100)]
#[verifier::spinoff_prover]
fn collect_region_leaders(route: &TableRoute, regions: &Vec<RegionNumber>) -> (leaders: Vec<Peer>)
    requires
        forall|i: int|
            0 <= i < regions@.len() ==> spec_find_region_leader(
                route@,
                #[trigger] regions@[i],
            ) is Some,
    ensures
        forall|a: int, b: int|
            0 <= a < b < leaders@.len() ==> (#[trigger] leaders@[a]).id != (#[trigger] leaders@[
                b]).id,
        forall|j: int|
            0 <= j < regions@.len() ==> leader_covered(route@, #[trigger] regions@[j], leaders@),
{
    let mut leaders: Vec<Peer> = Vec::new();
    let mut i: usize = 0;
    while i < regions.len()
        invariant
            i <= regions@.len(),
            forall|j: int|
                0 <= j < regions@.len() ==> spec_find_region_leader(
                    route@,
                    #[trigger] regions@[j],
                ) is Some,
            forall|a: int, b: int|
                0 <= a < b < leaders@.len() ==> (#[trigger] leaders@[a]).id != (
                #[trigger] leaders@[b]).id,
            forall|j: int|
                0 <= j < i ==> leader_covered(route@, #[trigger] regions@[j], leaders@),
        decreases regions@.len() - i,
    {
        let ghost leaders0 = leaders@;
        let p = match route.find_region_leader(regions[i]) {
            Some(p) => p,
            None => {
                proof {
                    assert(spec_find_region_leader(route@, regions@[i as int]) is Some);
                }
                return leaders;
            },
        };
        if !peer_id_in(&leaders, p.id) {
            leaders.push(p.clone());
        }
        proof {
            assert(spec_find_region_leader(route@, regions@[i as int]) == Some(p@));
            if leaders@.len() > leaders0.len() {
                assert(leaders@[leaders@.len() - 1]@ == p@);
                assert forall|a: int, b: int|
                    0 <= a < b < leaders@.len() implies (#[trigger] leaders@[a]).id != (
                    #[trigger] leaders@[b]).id by {
                    if b == leaders@.len() - 1 {
                        assert(leaders0[a].id != p.id);
                    }
                }
            }
            assert forall|j: int|
                0 <= j < i + 1 implies leader_covered(
                route@,
                #[trigger] regions@[j],
                leaders@,
            ) by {
                if j < i {
                    let a = choose|a: int|
                        0 <= a < leaders0.len() && region_led_by(
                            route@,
                            regions@[j],
                            (#[trigger] leaders0[a]).id,
                        );
                    assert(leaders@[a].id == leaders0[a].id);
                    assert(region_led_by(route@, regions@[j], (leaders@[a]).id));
                } else {
                    if leaders@.len() > leaders0.len() {
                        assert(region_led_by(
                            route@,
                            regions@[j],
                            (leaders@[leaders@.len() - 1]).id,
                        ));
                    } else {
                        let a = choose|a: int|
                            0 <= a < leaders0.len() && (#[trigger] leaders0[a]).id == p.id;
                        assert(region_led_by(route@, regions@[j], (leaders@[a]).id));
                    }
                }
            }
        }
        i = i + 1;
    }
    leaders
}

/// For each leader, the requested regions it leads, in request order.
fn group_regions_by_leader(
    route: &TableRoute,
    regions: &Vec<RegionNumber>,
    leaders: Vec<Peer>,
) -> (dist: Vec<(Peer, Vec<RegionNumber>)>)
    ensures
        dist@.len() == leaders@.len(),
        forall|m: int|
            0 <= m < dist@.len() ==> (#[trigger] dist@[m]).0.id == leaders@[m].id && (
            dist@[m]).0@ == leaders@[m]@,
        forall|m: int|
            0 <= m < dist@.len() ==> (#[trigger] dist@[m]).1@ == regions@.filter(
                |rn: RegionNumber| region_led_by(route@, rn, leaders@[m].id),
            ),
{
    let mut dist: Vec<(Peer, Vec<RegionNumber>)> = Vec::new();
    let mut a: usize = 0;
    while a < leaders.len()
        invariant
            a <= leaders@.len(),
            dist@.len() == a,
            forall|m: int|
                0 <= m < a ==> (#[trigger] dist@[m]).0.id == leaders@[m].id && (dist@[m]).0@
                    == leaders@[m]@,
            forall|m: int|
                0 <= m < a ==> (#[trigger] dist@[m]).1@ == regions@.filter(
                    |rn: RegionNumber| region_led_by(route@, rn, leaders@[m].id),
                ),
        decreases leaders@.len() - a,
    {
        let d = leaders[a].id;
        let ghost pred = |rn: RegionNumber| region_led_by(route@, rn, d);
        let mut nums: Vec<RegionNumber> = Vec::new();
        let mut j: usize = 0;
        proof {
            assert(regions@.subrange(0, 0) =~= Seq::<RegionNumber>::empty());
            reveal(Seq::filter);
        }
        while j < regions.len()
            invariant
                j <= regions@.len(),
                a < leaders@.len(),
                d == leaders@[a as int].id,
                pred == (|rn: RegionNumber| region_led_by(route@, rn, d)),
                nums@ == regions@.subrange(0, j as int).filter(pred),
            decreases regions@.len() - j,
        {
            proof {
                assert(regions@.subrange(0, j + 1) =~= regions@.subrange(0, j as int).push(
                    regions@[j as int],
                ));
                lemma_filter_push(regions@.subrange(0, j as int), regions@[j as int], pred);
            }
            let led = match route.find_region_leader(regions[j]) {
                Some(p) => p.id == d,
                None => false,
            };
            if led {
                proof {
                    assert(pred(regions@[j as int]));
                }
                nums.push(regions[j]);
            } else {
                proof {
                    assert(!pred(regions@[j as int]));
                }
            }
            j = j + 1;
        }
        proof {
            assert(regions@.subrange(0, regions@.len() as int) =~= regions@);
        }
        dist.push((leaders[a].clone(), nums));
        proof {
            assert((dist@[a as int]).0@ == leaders@[a as int]@);
            assert((dist@[a as int]).0.id == leaders@[a as int].id);
        }
        a = a + 1;
    }
    dist
}

impl PartitionRuleManager {
    /// Groups the requested regions by the datanode leading them; every
    /// requested region must have a leader.
    pub fn find_region_datanodes(&mut self, table_id: TableId, regions: Vec<RegionNumber>) -> (r:
        Result<Vec<(Peer, Vec<RegionNumber>)>, PartitionError>)
        requires
            old(self).wf(),
        ensures
            final(self).wf(),
            cache_after_fetch(old(self).table_routes, final(self).table_routes, table_id),
            ({
                let resolved = resolved_route(old(self).table_routes, table_id);
                match r {
                    Ok(dist) => {
                        &&& resolved is Some
                        &&& forall|i: int|
                            0 <= i < regions@.len() ==> spec_find_region_leader(
                                resolved.unwrap(),
                                #[trigger] regions@[i],
                            ) is Some
                        &&& forall|a: int, b: int|
                            0 <= a < b < dist@.len() ==> (#[trigger] dist@[a]).0.id != (
                            #[trigger] dist@[b]).0.id
                        &&& forall|a: int|
                            0 <= a < dist@.len() ==> (#[trigger] dist@[a]).1@ == regions@.filter(
                                |rn: RegionNumber| region_led_by(resolved.unwrap(), rn, dist@[a].0.id),
                            )
                        &&& forall|i: int|
                            0 <= i < regions@.len() ==> dist_covered(
                                resolved.unwrap(),
                                #[trigger] regions@[i],
                                dist@,
                            )
                    },
                    Err(PartitionError::FindDatanode { table_id: t, region }) => {
                        &&& t == table_id
                        &&& resolved is Some
                        &&& regions@.contains(region)
                        &&& spec_find_region_leader(resolved.unwrap(), region) is None
                    },
                    Err(PartitionError::FindTableRoutes { table_id: t }) => t == table_id
                        && resolved is None,
                    Err(_) => false,
                }
            }),
    {
        let route = match self.table_routes.get_route(table_id) {
            Ok(route) => route,
            Err(e) => {
                return Err(e);
            },
        };
        match check_region_leaders(&route, &regions) {
            Ok(()) => {},
            Err(region) => {
                return Err(PartitionError::FindDatanode { table_id, region });
            },
        }
        let leaders = collect_region_leaders(&route, &regions);
        let ghost leaders_ghost = leaders@;
        let dist = group_regions_by_leader(&route, &regions, leaders);
        proof {
            assert forall|a: int, b: int|
                0 <= a < b < dist@.len() implies (#[trigger] dist@[a]).0.id != (
                #[trigger] dist@[b]).0.id by {
                assert(dist@[a].0.id == leaders_ghost[a].id);
                assert(dist@[b].0.id == leaders_ghost[b].id);
            }
            assert forall|a: int|
                0 <= a < dist@.len() implies (#[trigger] dist@[a]).1@ == regions@.filter(
                |rn: RegionNumber| region_led_by(route@, rn, dist@[a].0.id),
            ) by {
                assert(dist@[a].0.id == leaders_ghost[a].id);
                assert(dist@[a].1@ == regions@.filter(
                    |rn: RegionNumber| region_led_by(route@, rn, leaders_ghost[a].id),
                ));
            }
            assert forall|i2: int|
                0 <= i2 < regions@.len() implies dist_covered(
                route@,
                #[trigger] regions@[i2],
                dist@,
            ) by {
                assert(leader_covered(route@, regions@[i2], leaders_ghost));
                let a = choose|a: int|
                    0 <= a < leaders_ghost.len() && region_led_by(
                        route@,
                        regions@[i2],
                        (#[trigger] leaders_ghost[a]).id,
                    );
                assert((dist@[a]).0.id == leaders_ghost[a].id);
                assert(region_led_by(route@, regions@[i2], (dist@[a]).0.id));
            }
        }
        Ok(dist)
    }
}

/// Whether some peer in the vector has the given id.
fn peer_id_in(v: &Vec<Peer>, id: u64) -> (r: bool)
    ensures
        r == exists|a: int| 0 <= a < v@.len() && (#[trigger] v@[a]).id == id,
{
    let mut i: usize = 0;
    while i < v.len()
        invariant
            i <= v@.len(),
            forall|a: int| 0 <= a < i ==> (#[trigger] v@[a]).id != id,
        decreases v@.len() - i,
    {
        if v[i].id == id {
            return true;
        }
        i = i + 1;
    }
    false
}

impl PartitionRuleManager {
    /// Builds the table's partition rule from its sorted partitions: a
    /// range rule over one partition column — with the trailing
    /// `MaxValue` dropped — or a range-columns rule over several.
    pub fn find_table_partition_rule(&mut self, table_id: TableId) -> (r: Result<
        TablePartitionRule,
        PartitionError,
    >)
        requires
            old(self).wf(),
        ensures
            final(self).wf(),
            cache_after_fetch(old(self).table_routes, final(self).table_routes, table_id),
            match r {
                Ok(rule) => built_rule_ok(old(self).table_routes, table_id, rule),
                Err(e) => rule_failed(old(self).table_routes, e, table_id),
            },
    {
        let partitions = match self.find_table_partitions(table_id) {
            Ok(p) => p,
            Err(e) => {
                return Err(e);
            },
        };
        let ghost psv = parts_view(partitions@);
        let ghost resolved = resolved_route(old(self).table_routes, table_id).unwrap();
        proof {
            assert(psv.len() == route_infos(resolved).len()) by {
                psv.to_multiset_ensures();
                route_infos(resolved).to_multiset_ensures();
            }
            assert(psv.len() > 0);
        }

        let regions = collect_part_regions(&partitions);
        let n_columns = partitions[0].partition.partition_columns().len();
        proof {
            assert(psv[0].partition.partition_columns.len() == strs_view(
                partitions@[0].partition.partition_columns@,
            ).len());
        }
        let rule: TablePartitionRule;
        if n_columns == 1 {
            let bounds = collect_range_bounds(&partitions);
            let column = first_partition_column(&partitions);
            rule = TablePartitionRule::Range(RangePartitionRule::new(column, bounds, regions));
        } else {
            let bound_rows = collect_bound_rows(&partitions);
            let columns = first_partition_columns(&partitions);
            rule = TablePartitionRule::RangeColumns(
                RangeColumnsPartitionRule::new(columns, bound_rows, regions),
            );
        }
        if !rule_wf_check(&rule) {
            proof {
                match rule {
                    TablePartitionRule::Range(rr) => {
                        assert(sorted_parts_of(resolved, psv));
                        assert(range_bounds_spec(psv, psv.len() as int).len() + 1 != psv.len());
                    },
                    TablePartitionRule::RangeColumns(rc) => {
                        assert(rc.regions@.len() == psv.len());
                        assert(bound_rows_view(rc.bounds@).len() == rc.bounds@.len());
                        assert(bound_rows_view(rc.bounds@).len() == psv.len());
                        assert(rc.wf());
                    },
                }
            }
            return Err(PartitionError::InvalidTableRouteData { table_id });
        }
        proof {
            assert(sorted_parts_of(resolved, psv));
            assert(rule_built_from(psv, rule));
        }
        Ok(rule)
    }

    /// Splits a row-oriented insert into per-region inserts by the
    /// table's partition rule.
    pub fn split_row_insert_request(&mut self, table: TableId, req: RowInsertRequest) -> (r:
        Result<RowInsertRequestSplits, PartitionError>)
        requires
            old(self).wf(),
            match req.rows {
                Some(rows) => rows.wf(),
                None => true,
            },
        ensures
            final(self).wf(),
            cache_after_fetch(old(self).table_routes, final(self).table_routes, table),
            match r {
                Ok(splits) => exists|rule: TablePartitionRule|
                    {
                        &&& #[trigger] built_rule_ok(old(self).table_routes, table, rule)
                        &&& splits.wf()
                        &&& Some(splits@) == split_spec(rule, req@)
                    },
                Err(e) => rule_failed(old(self).table_routes, e, table) || exists|
                    rule: TablePartitionRule,
                |
                    {
                        &&& #[trigger] built_rule_ok(old(self).table_routes, table, rule)
                        &&& split_spec(rule, req@) is None
                    },
            },
    {
        let partition_rule = match self.find_table_partition_rule(table) {
            Ok(rule) => rule,
            Err(e) => {
                return Err(e);
            },
        };
        let ghost rule_ghost = partition_rule;
        let splitter = RowSplitter::new(partition_rule);
        match splitter.split(req) {
            Ok(splits) => {
                proof {
                    assert(built_rule_ok(old(self).table_routes, table, rule_ghost));
                }
                Ok(splits)
            },
            Err(e) => {
                proof {
                    assert(built_rule_ok(old(self).table_routes, table, rule_ghost));
                }
                Err(e)
            },
        }
    }
}

/// The region numbers of the sorted partitions, in order.
fn collect_part_regions(partitions: &Vec<PartitionInfo>) -> (r: Vec<RegionNumber>)
    ensures
        r@ == part_regions_spec(parts_view(partitions@)),
{
    let mut r: Vec<RegionNumber> = Vec::new();
    let mut i: usize = 0;
    while i < partitions.len()
        invariant
            i <= partitions@.len(),
            r@.len() == i,
            forall|j: int|
                0 <= j < i ==> #[trigger] r@[j] == part_regions_spec(parts_view(partitions@))[j],
        decreases partitions@.len() - i,
    {
        let num = partitions[i].id.region_number();
        proof {
            assert(parts_view(partitions@)[i as int].id == partitions@[i as int].id.spec_as_u64());
        }
        r.push(num);
        i = i + 1;
    }
    proof {
        assert(r@ =~= part_regions_spec(parts_view(partitions@)));
    }
    r
}

/// The concrete first bounds of the sorted partitions, with `MaxValue`
/// entries dropped.
fn collect_range_bounds(partitions: &Vec<PartitionInfo>) -> (r: Vec<Value>)
    ensures
        vals_view(r@) == range_bounds_spec(parts_view(partitions@), partitions@.len() as int),
{
    let ghost psv = parts_view(partitions@);
    let mut r: Vec<Value> = Vec::new();
    let mut i: usize = 0;
    while i < partitions.len()
        invariant
            psv == parts_view(partitions@),
            i <= partitions@.len(),
            vals_view(r@) == range_bounds_spec(psv, i as int),
        decreases partitions@.len() - i,
    {
        let ghost r0 = r@;
        let part_bounds = partitions[i].partition.partition_bounds();
        proof {
            assert(psv[i as int].partition.bounds == crate::partition::bounds_view(
                partitions@[i as int].partition.bounds@,
            ));
        }
        if part_bounds.len() > 0 {
            match &part_bounds[0] {
                PartitionBound::Value(v) => {
                    let ghost vv = v@;
                    r.push(v.clone());
                    proof {
                        assert(psv[i as int].partition.bounds[0] == partitions@[
                            i as int].partition.bounds@[0]@);
                        assert(psv[i as int].partition.bounds[0] == BoundV::Value(vv));
                        assert(vals_view(r@) =~= range_bounds_spec(psv, i + 1));
                    }
                },
                PartitionBound::MaxValue => {
                    proof {
                        assert(psv[i as int].partition.bounds[0] == BoundV::MaxValue);
                        assert(vals_view(r@) =~= range_bounds_spec(psv, i + 1));
                    }
                },
            }
        } else {
            proof {
                assert(psv[i as int].partition.bounds.len() == 0);
                assert(vals_view(r@) =~= range_bounds_spec(psv, i + 1));
            }
        }
        i = i + 1;
    }
    r
}

/// The full bound tuples of the sorted partitions, in order.
fn collect_bound_rows(partitions: &Vec<PartitionInfo>) -> (r: Vec<Vec<PartitionBound>>)
    ensures
        bound_rows_view(r@) == parts_view(partitions@).map_values(
            |p: PartitionInfoV| p.partition.bounds,
        ),
{
    let mut r: Vec<Vec<PartitionBound>> = Vec::new();
    let mut i: usize = 0;
    while i < partitions.len()
        invariant
            i <= partitions@.len(),
            r@.len() == i,
            forall|j: int|
                0 <= j < i ==> #[trigger] bound_rows_view(r@)[j] == parts_view(partitions@)[
                    j].partition.bounds,
        decreases partitions@.len() - i,
    {
        let ghost r0 = r@;
        let mut row: Vec<PartitionBound> = Vec::new();
        let part_bounds = partitions[i].partition.partition_bounds();
        let mut k: usize = 0;
        while k < part_bounds.len()
            invariant
                k <= part_bounds@.len(),
                row@.len() == k,
                forall|m: int| 0 <= m < k ==> row@[m]@ == part_bounds@[m]@,
            decreases part_bounds@.len() - k,
        {
            row.push(part_bounds[k].clone());
            k = k + 1;
        }
        proof {
            assert(crate::partition::bounds_view(row@) =~= parts_view(partitions@)[
                i as int].partition.bounds);
        }
        r.push(row);
        proof {
            assert forall|j: int|
                0 <= j < i + 1 implies #[trigger] bound_rows_view(r@)[j] == parts_view(
                partitions@,
            )[j].partition.bounds by {
                if j < i {
                    assert(r@[j] == r0[j]);
                    assert(bound_rows_view(r0)[j] == parts_view(partitions@)[j].partition.bounds);
                }
            }
        }
        i = i + 1;
    }
    proof {
        assert(bound_rows_view(r@) =~= parts_view(partitions@).map_values(
            |p: PartitionInfoV| p.partition.bounds,
        ));
    }
    r
}

/// The name of the single partition column.
fn first_partition_column(partitions: &Vec<PartitionInfo>) -> (r: String)
    requires
        partitions@.len() > 0,
        parts_view(partitions@)[0].partition.partition_columns.len() == 1,
    ensures
        r@ == parts_view(partitions@)[0].partition.partition_columns[0],
{
    let cols = partitions[0].partition.partition_columns();
    proof {
        assert(strs_view(cols@) == parts_view(partitions@)[0].partition.partition_columns);
        assert(cols@[0]@ == strs_view(cols@)[0]);
    }
    cols[0].clone()
}

/// The names of the partition columns.
fn first_partition_columns(partitions: &Vec<PartitionInfo>) -> (r: Vec<String>)
    requires
        partitions@.len() > 0,
    ensures
        strs_view(r@) == parts_view(partitions@)[0].partition.partition_columns,
{
    let cols = partitions[0].partition.partition_columns();
    let mut r: Vec<String> = Vec::new();
    let mut i: usize = 0;
    while i < cols.len()
        invariant
            i <= cols@.len(),
            r@.len() == i,
            forall|j: int| 0 <= j < i ==> r@[j]@ == cols@[j]@,
        decreases cols@.len() - i,
    {
        r.push(cols[i].clone());
        i = i + 1;
    }
    proof {
        assert(strs_view(r@) =~= strs_view(cols@));
        assert(strs_view(cols@) == parts_view(partitions@)[0].partition.partition_columns);
    }
    r
}

/// Whether the built rule is well-formed: a range rule needs one more
/// region than bounds, a range-columns rule one region per bound tuple.
fn rule_wf_check(rule: &TablePartitionRule) -> (r: bool)
    ensures
        r == rule.wf(),
{
    match rule {
        TablePartitionRule::Range(rr) => rr.regions.len() > 0 && rr.regions.len() - 1
            == rr.bounds.len(),
        TablePartitionRule::RangeColumns(rc) => rc.regions.len() == rc.bounds.len()
            && rc.regions.len() >= 1,
    }
}

/// Whether two column-name lists are equal.
fn columns_equal(a: &Vec<String>, b: &Vec<String>) -> (r: bool)
    ensures
        r == (strs_view(a@) == strs_view(b@)),
{
    if a.len() != b.len() {
        proof {
            assert(strs_view(a@).len() != strs_view(b@).len());
        }
        return false;
    }
    let mut i: usize = 0;
    while i < a.len()
        invariant
            a@.len() == b@.len(),
            i <= a@.len(),
            forall|j: int| 0 <= j < i ==> #[trigger] strs_view(a@)[j] == strs_view(b@)[j],
        decreases a@.len() - i,
    {
        if !a[i].eq(&b[i]) {
            proof {
                assert(strs_view(a@)[i as int] != strs_view(b@)[i as int]);
            }
            return false;
        }
        proof {
            assert(strs_view(a@)[i as int] == strs_view(b@)[i as int]);
        }
        i = i + 1;
    }
    proof {
        assert(strs_view(a@) =~= strs_view(b@));
    }
    true
}

/// Two sorted partitions with differing columns name two route entries
/// with differing columns.
proof fn lemma_same_columns_transfer(
    routes: Seq<RegionRouteV>,
    ps: Seq<PartitionInfoV>,
    a: int,
    b: int,
)
    requires
        ps.to_multiset() == route_infos(routes).to_multiset(),
        0 <= a < ps.len(),
        0 <= b < ps.len(),
        ps[a].partition.partition_columns != ps[b].partition.partition_columns,
    ensures
        !same_columns(route_infos(routes)),
{
    broadcast use vstd::seq_lib::group_to_multiset_ensures;

    let infos = route_infos(routes);
    assert(ps.to_multiset().contains(ps[a])) by {
        assert(ps.contains(ps[a]));
    }
    assert(ps.to_multiset().contains(ps[b])) by {
        assert(ps.contains(ps[b]));
    }
    assert(infos.contains(ps[a]));
    assert(infos.contains(ps[b]));
    let ia = choose|ia: int| 0 <= ia < infos.len() && infos[ia] == ps[a];
    let ib = choose|ib: int| 0 <= ib < infos.len() && infos[ib] == ps[b];
    assert(infos[ia].partition.partition_columns != infos[ib].partition.partition_columns);
}

/// Once some filter has failed, the whole list fails.
proof fn lemma_filters_none_stays<R: PartitionRule>(
    rule: R,
    filters: Seq<FilterExpr>,
    k: int,
    k2: int,
)
    requires
        k <= k2,
        filters_regions_spec(rule, filters, k) is None,
    ensures
        filters_regions_spec(rule, filters, k2) is None,
    decreases k2 - k,
{
    if k < k2 {
        lemma_filters_none_stays(rule, filters, k, k2 - 1);
    }
}

} // verus!
