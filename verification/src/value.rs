//! Plain values carried in rows and partition bounds, with the total
//! order used by range partition rules: `Null` sorts before every other
//! value, values of different kinds are ordered by kind, and values of
//! the same kind by their natural order.

use vstd::prelude::*;

verus! {

/// Mathematical model of a [`Value`].
pub enum ValueV {
    Null,
    Bool(bool),
    Int64(int),
    UInt64(int),
    Str(Seq<char>),
}

/// A plain value in a row or a partition bound.
#[derive(Debug, PartialEq)]
pub enum Value {
    Null,
    Bool(bool),
    Int64(i64),
    UInt64(u64),
    Str(String),
}

impl View for Value {
    type V = ValueV;

    open spec fn view(&self) -> ValueV {
        match self {
            Value::Null => ValueV::Null,
            Value::Bool(b) => ValueV::Bool(*b),
            Value::Int64(x) => ValueV::Int64(*x as int),
            Value::UInt64(x) => ValueV::UInt64(*x as int),
            Value::Str(s) => ValueV::Str(s@),
        }
    }
}

impl Clone for Value {
    fn clone(&self) -> (r: Self)
        ensures
            r@ == self@,
    {
        match self {
            Value::Null => Value::Null,
            Value::Bool(b) => Value::Bool(*b),
            Value::Int64(x) => Value::Int64(*x),
            Value::UInt64(x) => Value::UInt64(*x),
            Value::Str(s) => Value::Str(s.clone()),
        }
    }
}

/// View of a sequence of values.
pub open spec fn vals_view(s: Seq<Value>) -> Seq<ValueV> {
    s.map_values(|v: Value| v@)
}

/// View of a sequence of strings.
pub open spec fn strs_view(s: Seq<String>) -> Seq<Seq<char>> {
    s.map_values(|x: String| x@)
}

/// Rank of a value's kind in the cross-kind order.
pub open spec fn value_rank(v: ValueV) -> int {
    match v {
        ValueV::Null => 0,
        ValueV::Bool(_) => 1,
        ValueV::Int64(_) => 2,
        ValueV::UInt64(_) => 3,
        ValueV::Str(_) => 4,
    }
}

/// Lexicographic three-way comparison of character sequences:
/// negative means `a < b`, zero means equal, positive means `a > b`.
pub open spec fn chars_cmp(a: Seq<char>, b: Seq<char>) -> int
    decreases a.len(),
{
    if a.len() == 0 && b.len() == 0 {
        0
    } else if a.len() == 0 {
        -1
    } else if b.len() == 0 {
        1
    } else if (a[0] as u32) < (b[0] as u32) {
        -1
    } else if (b[0] as u32) < (a[0] as u32) {
        1
    } else {
        chars_cmp(a.skip(1), b.skip(1))
    }
}

/// Three-way comparison of values: negative means `a < b`, zero means
/// equal, positive means `a > b`.
pub open spec fn value_cmp(a: ValueV, b: ValueV) -> int {
    if value_rank(a) != value_rank(b) {
        if value_rank(a) < value_rank(b) {
            -1
        } else {
            1
        }
    } else {
        match (a, b) {
            (ValueV::Bool(x), ValueV::Bool(y)) => if x == y {
                0
            } else if !x {
                -1
            } else {
                1
            },
            (ValueV::Int64(x), ValueV::Int64(y)) => if x < y {
                -1
            } else if y < x {
                1
            } else {
                0
            },
            (ValueV::UInt64(x), ValueV::UInt64(y)) => if x < y {
                -1
            } else if y < x {
                1
            } else {
                0
            },
            (ValueV::Str(x), ValueV::Str(y)) => chars_cmp(x, y),
            _ => 0,
        }
    }
}

pub open spec fn value_lt(a: ValueV, b: ValueV) -> bool {
    value_cmp(a, b) < 0
}

pub open spec fn value_le(a: ValueV, b: ValueV) -> bool {
    value_cmp(a, b) <= 0
}

pub proof fn lemma_chars_cmp_zero(a: Seq<char>, b: Seq<char>)
    requires
        chars_cmp(a, b) == 0,
    ensures
        a == b,
    decreases a.len(),
{
    if a.len() == 0 && b.len() == 0 {
        assert(a =~= b);
    } else {
        lemma_chars_cmp_zero(a.skip(1), b.skip(1));
        assert((a[0] as u32) == (b[0] as u32));
        lemma_char_eq(a[0], b[0]);
        assert(a =~= b) by {
            assert(forall|i: int|
                1 <= i < a.len() ==> a[i] == a.skip(1)[i - 1] && b[i] == b.skip(1)[i - 1]);
        }
    }
}

pub proof fn lemma_chars_cmp_swap(a: Seq<char>, b: Seq<char>)
    ensures
        chars_cmp(a, b) == -chars_cmp(b, a),
    decreases a.len(),
{
    if a.len() > 0 && b.len() > 0 && (a[0] as u32) == (b[0] as u32) {
        lemma_chars_cmp_swap(a.skip(1), b.skip(1));
    }
}

pub proof fn lemma_chars_cmp_trans(a: Seq<char>, b: Seq<char>, c: Seq<char>)
    requires
        chars_cmp(a, b) <= 0,
        chars_cmp(b, c) <= 0,
    ensures
        chars_cmp(a, c) <= 0,
        chars_cmp(a, b) < 0 || chars_cmp(b, c) < 0 ==> chars_cmp(a, c) < 0,
    decreases a.len() + b.len() + c.len(),
{
    if a.len() == 0 {
        // a is least; a < c unless both are empty, in which case b is empty too.
    } else if a.len() > 0 && b.len() > 0 && c.len() > 0 {
        if (a[0] as u32) == (b[0] as u32) && (b[0] as u32) == (c[0] as u32) {
            lemma_chars_cmp_trans(a.skip(1), b.skip(1), c.skip(1));
        }
    }
}

pub proof fn lemma_value_cmp_zero(a: ValueV, b: ValueV)
    requires
        value_cmp(a, b) == 0,
    ensures
        a == b,
{
    match (a, b) {
        (ValueV::Str(x), ValueV::Str(y)) => lemma_chars_cmp_zero(x, y),
        _ => {},
    }
}

pub proof fn lemma_value_cmp_swap(a: ValueV, b: ValueV)
    ensures
        value_cmp(a, b) == -value_cmp(b, a),
{
    match (a, b) {
        (ValueV::Str(x), ValueV::Str(y)) => lemma_chars_cmp_swap(x, y),
        _ => {},
    }
}

pub proof fn lemma_value_cmp_trans(a: ValueV, b: ValueV, c: ValueV)
    requires
        value_le(a, b),
        value_le(b, c),
    ensures
        value_le(a, c),
        value_lt(a, b) || value_lt(b, c) ==> value_lt(a, c),
{
    match (a, b) {
        (ValueV::Str(x), ValueV::Str(y)) => {
            match c {
                ValueV::Str(z) => lemma_chars_cmp_trans(x, y, z),
                _ => {},
            }
        },
        _ => {},
    }
}

proof fn lemma_char_eq(x: char, y: char)
    requires
        x as u32 == y as u32,
    ensures
        x == y,
{
}

/// Lexicographic comparison of two strings by characters.
fn str_compare(a: &str, b: &str) -> (r: i8)
    ensures
        r as int == chars_cmp(a@, b@) || (r as int) * chars_cmp(a@, b@) > 0,
        r == 0 <==> chars_cmp(a@, b@) == 0,
        r < 0 <==> chars_cmp(a@, b@) < 0,
{
    let a_len = a.unicode_len();
    let b_len = b.unicode_len();
    let mut i: usize = 0;
    proof {
        assert(a@.skip(0) =~= a@);
        assert(b@.skip(0) =~= b@);
    }
    while i < a_len && i < b_len
        invariant
            i <= a_len,
            i <= b_len,
            a_len == a@.len(),
            b_len == b@.len(),
            chars_cmp(a@, b@) == chars_cmp(a@.skip(i as int), b@.skip(i as int)),
        decreases a_len - i,
    {
        let ca = a.get_char(i);
        let cb = b.get_char(i);
        let ghost sa = a@.skip(i as int);
        let ghost sb = b@.skip(i as int);
        proof {
            assert(sa[0] == a@[i as int]);
            assert(sb[0] == b@[i as int]);
        }
        if (ca as u32) < (cb as u32) {
            return -1;
        }
        if (cb as u32) < (ca as u32) {
            return 1;
        }
        proof {
            assert(sa.skip(1) =~= a@.skip(i + 1));
            assert(sb.skip(1) =~= b@.skip(i + 1));
        }
        i = i + 1;
    }
    proof {
        assert(a@.skip(i as int).len() == a@.len() - i);
        assert(b@.skip(i as int).len() == b@.len() - i);
    }
    if a_len < b_len {
        -1
    } else if b_len < a_len {
        1
    } else {
        0
    }
}

/// Three-way comparison of two values in the partition order.
pub fn value_compare(a: &Value, b: &Value) -> (r: i8)
    ensures
        r == 0 <==> value_cmp(a@, b@) == 0,
        r < 0 <==> value_cmp(a@, b@) < 0,
        r > 0 <==> value_cmp(a@, b@) > 0,
{
    let ra = value_rank_exec(a);
    let rb = value_rank_exec(b);
    if ra < rb {
        return -1;
    }
    if rb < ra {
        return 1;
    }
    match (a, b) {
        (Value::Bool(x), Value::Bool(y)) => {
            if *x == *y {
                0
            } else if !*x {
                -1
            } else {
                1
            }
        },
        (Value::Int64(x), Value::Int64(y)) => {
            if *x < *y {
                -1
            } else if *y < *x {
                1
            } else {
                0
            }
        },
        (Value::UInt64(x), Value::UInt64(y)) => {
            if *x < *y {
                -1
            } else if *y < *x {
                1
            } else {
                0
            }
        },
        (Value::Str(x), Value::Str(y)) => str_compare(x.as_str(), y.as_str()),
        _ => 0,
    }
}

fn value_rank_exec(v: &Value) -> (r: u8)
    ensures
        r as int == value_rank(v@),
{
    match v {
        Value::Null => 0,
        Value::Bool(_) => 1,
        Value::Int64(_) => 2,
        Value::UInt64(_) => 3,
        Value::Str(_) => 4,
    }
}

} // verus!
