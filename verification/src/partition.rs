//! Partition bounds, partition definitions and partition expressions,
//! with the lexicographic order on bound tuples used to sort a table's
//! partitions and to evaluate range-columns rules.

use vstd::prelude::*;

use crate::value::{
    lemma_value_cmp_swap, lemma_value_cmp_trans, lemma_value_cmp_zero, value_cmp, value_compare,
    Value, ValueV,
};

verus! {

/// Mathematical model of a [`PartitionBound`].
pub enum BoundV {
    Value(ValueV),
    MaxValue,
}

/// One end of a partition range: a concrete value, or the upper bound
/// of the whole value space.
#[derive(Debug)]
pub enum PartitionBound {
    Value(Value),
    MaxValue,
}

impl View for PartitionBound {
    type V = BoundV;

    open spec fn view(&self) -> BoundV {
        match self {
            PartitionBound::Value(v) => BoundV::Value(v@),
            PartitionBound::MaxValue => BoundV::MaxValue,
        }
    }
}

impl Clone for PartitionBound {
    fn clone(&self) -> (r: Self)
        ensures
            r@ == self@,
    {
        match self {
            PartitionBound::Value(v) => PartitionBound::Value(v.clone()),
            PartitionBound::MaxValue => PartitionBound::MaxValue,
        }
    }
}

/// View of a sequence of bounds.
pub open spec fn bounds_view(s: Seq<PartitionBound>) -> Seq<BoundV> {
    s.map_values(|b: PartitionBound| b@)
}

/// View of a sequence of bound tuples.
pub open spec fn bound_rows_view(s: Seq<Vec<PartitionBound>>) -> Seq<Seq<BoundV>> {
    s.map_values(|row: Vec<PartitionBound>| bounds_view(row@))
}

/// View of a sequence of partition expressions.
pub open spec fn exprs_view(s: Seq<PartitionExpr>) -> Seq<PartitionExprV> {
    s.map_values(|e: PartitionExpr| e@)
}

/// Three-way comparison of bounds: `MaxValue` is greater than every
/// concrete value.
pub open spec fn bound_cmp(a: BoundV, b: BoundV) -> int {
    match (a, b) {
        (BoundV::MaxValue, BoundV::MaxValue) => 0,
        (BoundV::MaxValue, BoundV::Value(_)) => 1,
        (BoundV::Value(_), BoundV::MaxValue) => -1,
        (BoundV::Value(x), BoundV::Value(y)) => value_cmp(x, y),
    }
}

/// Lexicographic three-way comparison of bound tuples.
pub open spec fn bounds_cmp(a: Seq<BoundV>, b: Seq<BoundV>) -> int
    decreases a.len(),
{
    if a.len() == 0 && b.len() == 0 {
        0
    } else if a.len() == 0 {
        -1
    } else if b.len() == 0 {
        1
    } else if bound_cmp(a[0], b[0]) != 0 {
        bound_cmp(a[0], b[0])
    } else {
        bounds_cmp(a.skip(1), b.skip(1))
    }
}

pub proof fn lemma_bound_cmp_zero(a: BoundV, b: BoundV)
    requires
        bound_cmp(a, b) == 0,
    ensures
        a == b,
{
    match (a, b) {
        (BoundV::Value(x), BoundV::Value(y)) => lemma_value_cmp_zero(x, y),
        _ => {},
    }
}

pub proof fn lemma_bound_cmp_swap(a: BoundV, b: BoundV)
    ensures
        bound_cmp(a, b) == -bound_cmp(b, a),
{
    match (a, b) {
        (BoundV::Value(x), BoundV::Value(y)) => lemma_value_cmp_swap(x, y),
        _ => {},
    }
}

pub proof fn lemma_bound_cmp_trans(a: BoundV, b: BoundV, c: BoundV)
    requires
        bound_cmp(a, b) <= 0,
        bound_cmp(b, c) <= 0,
    ensures
        bound_cmp(a, c) <= 0,
        bound_cmp(a, b) < 0 || bound_cmp(b, c) < 0 ==> bound_cmp(a, c) < 0,
{
    match (a, b) {
        (BoundV::Value(x), BoundV::Value(y)) => {
            match c {
                BoundV::Value(z) => lemma_value_cmp_trans(x, y, z),
                _ => {},
            }
        },
        _ => {},
    }
}

pub proof fn lemma_bounds_cmp_swap(a: Seq<BoundV>, b: Seq<BoundV>)
    ensures
        bounds_cmp(a, b) == -bounds_cmp(b, a),
    decreases a.len(),
{
    if a.len() > 0 && b.len() > 0 {
        lemma_bound_cmp_swap(a[0], b[0]);
        if bound_cmp(a[0], b[0]) == 0 {
            lemma_bounds_cmp_swap(a.skip(1), b.skip(1));
        }
    }
}

pub proof fn lemma_bounds_cmp_trans(a: Seq<BoundV>, b: Seq<BoundV>, c: Seq<BoundV>)
    requires
        bounds_cmp(a, b) <= 0,
        bounds_cmp(b, c) <= 0,
    ensures
        bounds_cmp(a, c) <= 0,
        bounds_cmp(a, b) < 0 || bounds_cmp(b, c) < 0 ==> bounds_cmp(a, c) < 0,
    decreases a.len() + b.len() + c.len(),
{
    if a.len() == 0 {
        // a is least.
    } else if a.len() > 0 && b.len() > 0 && c.len() > 0 {
        lemma_bound_cmp_trans(a[0], b[0], c[0]);
        lemma_bound_cmp_swap(a[0], b[0]);
        lemma_bound_cmp_swap(b[0], c[0]);
        lemma_bound_cmp_swap(a[0], c[0]);
        if bound_cmp(a[0], b[0]) == 0 && bound_cmp(b[0], c[0]) == 0 {
            lemma_bound_cmp_zero(a[0], b[0]);
            lemma_bound_cmp_zero(b[0], c[0]);
            lemma_bounds_cmp_trans(a.skip(1), b.skip(1), c.skip(1));
        }
    }
}

/// Three-way comparison of two bounds.
pub fn bound_compare(a: &PartitionBound, b: &PartitionBound) -> (r: i8)
    ensures
        r == 0 <==> bound_cmp(a@, b@) == 0,
        r < 0 <==> bound_cmp(a@, b@) < 0,
        r > 0 <==> bound_cmp(a@, b@) > 0,
{
    match (a, b) {
        (PartitionBound::MaxValue, PartitionBound::MaxValue) => 0,
        (PartitionBound::MaxValue, PartitionBound::Value(_)) => 1,
        (PartitionBound::Value(_), PartitionBound::MaxValue) => -1,
        (PartitionBound::Value(x), PartitionBound::Value(y)) => value_compare(x, y),
    }
}

/// Lexicographic three-way comparison of two bound tuples.
pub fn bounds_compare(a: &Vec<PartitionBound>, b: &Vec<PartitionBound>) -> (r: i8)
    ensures
        r == 0 <==> bounds_cmp(a@.map_values(|x: PartitionBound| x@), b@.map_values(|x: PartitionBound| x@)) == 0,
        r < 0 <==> bounds_cmp(a@.map_values(|x: PartitionBound| x@), b@.map_values(|x: PartitionBound| x@)) < 0,
        r > 0 <==> bounds_cmp(a@.map_values(|x: PartitionBound| x@), b@.map_values(|x: PartitionBound| x@)) > 0,
{
    let ghost av = a@.map_values(|x: PartitionBound| x@);
    let ghost bv = b@.map_values(|x: PartitionBound| x@);
    let mut i: usize = 0;
    proof {
        assert(av.skip(0) =~= av);
        assert(bv.skip(0) =~= bv);
    }
    while i < a.len() && i < b.len()
        invariant
            i <= a.len(),
            i <= b.len(),
            av == a@.map_values(|x: PartitionBound| x@),
            bv == b@.map_values(|x: PartitionBound| x@),
            av.len() == a@.len(),
            bv.len() == b@.len(),
            bounds_cmp(av, bv) == bounds_cmp(av.skip(i as int), bv.skip(i as int)),
        decreases a.len() - i,
    {
        proof {
            assert(av.skip(i as int)[0] == av[i as int]);
            assert(bv.skip(i as int)[0] == bv[i as int]);
        }
        let c = bound_compare(&a[i], &b[i]);
        if c != 0 {
            return c;
        }
        proof {
            assert(av.skip(i as int).skip(1) =~= av.skip(i + 1));
            assert(bv.skip(i as int).skip(1) =~= bv.skip(i + 1));
        }
        i = i + 1;
    }
    proof {
        assert(av.skip(i as int).len() == av.len() - i);
        assert(bv.skip(i as int).len() == bv.len() - i);
    }
    if a.len() < b.len() {
        -1
    } else if b.len() < a.len() {
        1
    } else {
        0
    }
}

/// Mathematical model of a [`PartitionDef`].
pub struct PartitionDefV {
    pub partition_columns: Seq<Seq<char>>,
    pub bounds: Seq<BoundV>,
}

/// Definition of one partition: the partition-column names and the
/// exclusive upper bound of the partition's range, one bound per
/// partition column.
#[derive(Debug)]
pub struct PartitionDef {
    pub partition_columns: Vec<String>,
    pub bounds: Vec<PartitionBound>,
}

impl View for PartitionDef {
    type V = PartitionDefV;

    open spec fn view(&self) -> PartitionDefV {
        PartitionDefV {
            partition_columns: self.partition_columns@.map_values(|s: String| s@),
            bounds: self.bounds@.map_values(|b: PartitionBound| b@),
        }
    }
}

impl PartitionDef {
    pub fn new(partition_columns: Vec<String>, bounds: Vec<PartitionBound>) -> (r: Self)
        ensures
            r@.partition_columns == partition_columns@.map_values(|s: String| s@),
            r@.bounds == bounds@.map_values(|b: PartitionBound| b@),
    {
        PartitionDef { partition_columns, bounds }
    }

    pub fn partition_columns(&self) -> (r: &Vec<String>)
        ensures
            r@.map_values(|s: String| s@) == self@.partition_columns,
    {
        &self.partition_columns
    }

    pub fn partition_bounds(&self) -> (r: &Vec<PartitionBound>)
        ensures
            r@.map_values(|b: PartitionBound| b@) == self@.bounds,
    {
        &self.bounds
    }
}

impl Clone for PartitionDef {
    fn clone(&self) -> (r: Self)
        ensures
            r@ == self@,
    {
        let mut columns: Vec<String> = Vec::new();
        let mut i: usize = 0;
        while i < self.partition_columns.len()
            invariant
                i <= self.partition_columns.len(),
                columns@.len() == i,
                forall|j: int| 0 <= j < i ==> columns@[j]@ == self.partition_columns@[j]@,
            decreases self.partition_columns.len() - i,
        {
            columns.push(self.partition_columns[i].clone());
            i = i + 1;
        }
        let mut bounds: Vec<PartitionBound> = Vec::new();
        let mut i: usize = 0;
        while i < self.bounds.len()
            invariant
                i <= self.bounds.len(),
                bounds@.len() == i,
                forall|j: int| 0 <= j < i ==> bounds@[j]@ == self.bounds@[j]@,
            decreases self.bounds.len() - i,
        {
            bounds.push(self.bounds[i].clone());
            i = i + 1;
        }
        let r = PartitionDef { partition_columns: columns, bounds };
        proof {
            assert(r@.partition_columns =~= self@.partition_columns);
            assert(r@.bounds =~= self@.bounds);
        }
        r
    }
}

/// Comparison operators that a partition expression can carry, plus the
/// logical connectives that appear in filters.
#[derive(Clone, Copy, PartialEq, Eq, Structural, Debug)]
pub enum Operator {
    Eq,
    NotEq,
    Lt,
    LtEq,
    Gt,
    GtEq,
    And,
    Or,
    Unsupported,
}

/// True exactly for the six comparison operators.
pub open spec fn spec_is_compare_op(op: Operator) -> bool {
    match op {
        Operator::Eq | Operator::NotEq | Operator::Lt | Operator::LtEq | Operator::Gt
            | Operator::GtEq => true,
        _ => false,
    }
}

#[inline]
pub fn is_compare_op(op: &Operator) -> (r: bool)
    ensures
        r == spec_is_compare_op(*op),
{
    match *op {
        Operator::Eq | Operator::NotEq | Operator::Lt | Operator::LtEq | Operator::Gt
            | Operator::GtEq => true,
        _ => false,
    }
}

/// The operator with its sides exchanged: `lit op col` reads as
/// `col reverse_operator(op) lit`.
pub open spec fn spec_reverse_operator(op: Operator) -> Operator {
    match op {
        Operator::Lt => Operator::Gt,
        Operator::Gt => Operator::Lt,
        Operator::LtEq => Operator::GtEq,
        Operator::GtEq => Operator::LtEq,
        _ => op,
    }
}

#[inline]
pub fn reverse_operator(op: &Operator) -> (r: Operator)
    ensures
        r == spec_reverse_operator(*op),
{
    match *op {
        Operator::Lt => Operator::Gt,
        Operator::Gt => Operator::Lt,
        Operator::LtEq => Operator::GtEq,
        Operator::GtEq => Operator::LtEq,
        _ => *op,
    }
}

/// Mathematical model of a [`PartitionExpr`].
pub struct PartitionExprV {
    pub column: Seq<char>,
    pub op: Operator,
    pub value: ValueV,
}

/// An atomic restriction `column op value` handed to a partition rule
/// when regions are looked up by filter.
pub struct PartitionExpr {
    pub column: String,
    pub op: Operator,
    pub value: Value,
}

impl View for PartitionExpr {
    type V = PartitionExprV;

    open spec fn view(&self) -> PartitionExprV {
        PartitionExprV { column: self.column@, op: self.op, value: self.value@ }
    }
}

impl PartitionExpr {
    pub fn new(column: String, op: Operator, value: Value) -> (r: Self)
        ensures
            r@ == (PartitionExprV { column: column@, op: op, value: value@ }),
    {
        PartitionExpr { column, op, value }
    }

    pub fn column(&self) -> (r: &String)
        ensures
            r@ == self@.column,
    {
        &self.column
    }

    pub fn op(&self) -> (r: Operator)
        ensures
            r == self@.op,
    {
        self.op
    }

    pub fn value(&self) -> (r: &Value)
        ensures
            r@ == self@.value,
    {
        &self.value
    }
}

} // verus!
