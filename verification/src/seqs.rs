//! Small sequence lemmas shared by the splitter and the rule
//! evaluators: how `filter` grows, and how the filters of a sequence
//! under disjoint predicates partition its multiset.

use vstd::prelude::*;

use vstd::multiset::Multiset;
use vstd::seq_lib::group_seq_properties;

verus! {

/// Filtering a sequence extended by one element keeps the element
/// exactly when the predicate holds of it.
pub proof fn lemma_filter_push<A>(s: Seq<A>, x: A, pred: spec_fn(A) -> bool)
    ensures
        s.push(x).filter(pred) == if pred(x) {
            s.filter(pred).push(x)
        } else {
            s.filter(pred)
        },
{
    reveal(Seq::filter);
    assert(s.push(x).drop_last() =~= s);
    assert(s.push(x).last() == x);
}

/// Map view of an association list: later entries win, though every
/// list built here carries each key once.
pub open spec fn assoc_map<K, T: View>(s: Seq<(K, T)>) -> Map<K, T::V>
    decreases s.len(),
{
    if s.len() == 0 {
        Map::empty()
    } else {
        assoc_map(s.drop_last()).insert(s.last().0, s.last().1@)
    }
}

/// No two entries of the association list carry the same key.
pub open spec fn assoc_distinct_keys<K, T>(s: Seq<(K, T)>) -> bool {
    forall|i: int, j: int| 0 <= i < j < s.len() ==> (#[trigger] s[i]).0 != (#[trigger] s[j]).0
}

pub proof fn lemma_assoc_map_props<K, T: View>(s: Seq<(K, T)>)
    ensures
        assoc_map(s).dom().finite(),
        forall|k: K| #[trigger]
            assoc_map(s).dom().contains(k) <==> exists|i: int|
                0 <= i < s.len() && (#[trigger] s[i]).0 == k,
        assoc_distinct_keys(s) ==> assoc_map(s).dom().len() == s.len(),
        assoc_distinct_keys(s) ==> forall|i: int|
            0 <= i < s.len() ==> assoc_map(s)[(#[trigger] s[i]).0] == s[i].1@,
    decreases s.len(),
{
    if s.len() == 0 {
    } else {
        let pre = s.drop_last();
        lemma_assoc_map_props(pre);
        assert(forall|i: int| 0 <= i < pre.len() ==> pre[i] == #[trigger] s[i]);
        assert forall|k: K| #[trigger] assoc_map(s).dom().contains(k) implies exists|i: int|
            0 <= i < s.len() && (#[trigger] s[i]).0 == k by {
            if k == s.last().0 {
                assert((s[s.len() - 1]).0 == k);
            } else {
                let i = choose|i: int| 0 <= i < pre.len() && (#[trigger] pre[i]).0 == k;
                assert((s[i]).0 == k);
            }
        }
        assert forall|k: K|
            (exists|i: int| 0 <= i < s.len() && (#[trigger] s[i]).0 == k) implies #[trigger]
            assoc_map(s).dom().contains(k) by {
            let i = choose|i: int| 0 <= i < s.len() && (#[trigger] s[i]).0 == k;
            if i < s.len() - 1 {
                assert((pre[i]).0 == k);
            }
        }
        if assoc_distinct_keys(s) {
            assert(assoc_distinct_keys(pre));
            assert(!assoc_map(pre).dom().contains(s.last().0)) by {
                if assoc_map(pre).dom().contains(s.last().0) {
                    let i = choose|i: int|
                        0 <= i < pre.len() && (#[trigger] pre[i]).0 == s.last().0;
                    assert((s[i]).0 == (s[s.len() - 1]).0);
                }
            }
            assert(assoc_map(s).dom() =~= assoc_map(pre).dom().insert(s.last().0));
            assert forall|i: int|
                0 <= i < s.len() implies assoc_map(s)[(#[trigger] s[i]).0] == s[i].1@ by {
                if i < s.len() - 1 {
                    assert((s[i]).0 != s.last().0);
                    assert(assoc_map(pre)[(pre[i]).0] == pre[i].1@);
                }
            }
        }
    }
}

/// Updating the entry at one index of an association list updates the
/// map view at its key alone.
pub proof fn lemma_assoc_map_update<K, T: View>(s: Seq<(K, T)>, i: int, v: T)
    requires
        assoc_distinct_keys(s),
        0 <= i < s.len(),
    ensures
        assoc_map(s.update(i, (s[i].0, v))) =~= assoc_map(s).insert(s[i].0, v@),
    decreases s.len(),
{
    let s2 = s.update(i, (s[i].0, v));
    lemma_assoc_map_props(s);
    assert(assoc_distinct_keys(s2));
    lemma_assoc_map_props(s2);
    assert(s2[i] == (s[i].0, v));
    assert forall|k: K| #[trigger] assoc_map(s2).dom().contains(k) implies assoc_map(s).insert(
        s[i].0,
        v@,
    ).dom().contains(k) by {
        let j = choose|j: int| 0 <= j < s2.len() && (#[trigger] s2[j]).0 == k;
        if j != i {
            assert((s[j]).0 == k);
        }
    }
    assert forall|k: K|
        assoc_map(s).insert(s[i].0, v@).dom().contains(k) implies #[trigger] assoc_map(
        s2,
    ).dom().contains(k) by {
        if k == s[i].0 {
            assert((s2[i]).0 == k);
        } else {
            let j = choose|j: int| 0 <= j < s.len() && (#[trigger] s[j]).0 == k;
            assert((s2[j]).0 == k);
        }
    }
    assert forall|k: K| #[trigger] assoc_map(s2).dom().contains(k) implies assoc_map(s2)[k]
        == assoc_map(s).insert(s[i].0, v@)[k] by {
        let j = choose|j: int| 0 <= j < s2.len() && (#[trigger] s2[j]).0 == k;
        assert(assoc_map(s2)[(s2[j]).0] == s2[j].1@);
        if j != i {
            assert((s[j]).0 == k);
            assert(assoc_map(s)[(s[j]).0] == s[j].1@);
            assert(s2[j] == s[j]);
        }
    }
}

/// Removing the entry at one index of an association list removes its
/// key alone from the map view.
pub proof fn lemma_assoc_map_remove<K, T: View>(s: Seq<(K, T)>, i: int)
    requires
        assoc_distinct_keys(s),
        0 <= i < s.len(),
    ensures
        assoc_distinct_keys(s.remove(i)),
        assoc_map(s.remove(i)) =~= assoc_map(s).remove(s[i].0),
{
    let s2 = s.remove(i);
    lemma_assoc_map_props(s);
    assert(forall|j: int| 0 <= j < i ==> #[trigger] s2[j] == s[j]);
    assert(forall|j: int| i <= j < s2.len() ==> #[trigger] s2[j] == s[j + 1]);
    assert forall|a: int, b: int|
        0 <= a < b < s2.len() implies (#[trigger] s2[a]).0 != (#[trigger] s2[b]).0 by {
        if a < i && b < i {
        } else if a < i {
            assert(s2[b] == s[b + 1]);
        } else {
            assert(s2[a] == s[a + 1]);
            assert(s2[b] == s[b + 1]);
        }
    }
    lemma_assoc_map_props(s2);
    assert forall|k: K| #[trigger] assoc_map(s2).dom().contains(k) implies assoc_map(s).remove(
        s[i].0,
    ).dom().contains(k) by {
        let j = choose|j: int| 0 <= j < s2.len() && (#[trigger] s2[j]).0 == k;
        if j < i {
            assert((s[j]).0 == k);
        } else {
            assert((s[j + 1]).0 == k);
            assert(j + 1 != i);
        }
    }
    assert forall|k: K|
        assoc_map(s).remove(s[i].0).dom().contains(k) implies #[trigger] assoc_map(
        s2,
    ).dom().contains(k) by {
        let j = choose|j: int| 0 <= j < s.len() && (#[trigger] s[j]).0 == k;
        if j < i {
            assert((s2[j]).0 == k);
        } else {
            assert(j != i);
            assert((s2[j - 1]).0 == k);
        }
    }
    assert forall|k: K| #[trigger] assoc_map(s2).dom().contains(k) implies assoc_map(s2)[k]
        == assoc_map(s).remove(s[i].0)[k] by {
        let j = choose|j: int| 0 <= j < s2.len() && (#[trigger] s2[j]).0 == k;
        assert(assoc_map(s2)[(s2[j]).0] == s2[j].1@);
        if j < i {
            assert(s2[j] == s[j]);
            assert(assoc_map(s)[(s[j]).0] == s[j].1@);
        } else {
            assert(s2[j] == s[j + 1]);
            assert(assoc_map(s)[(s[j + 1]).0] == s[j + 1].1@);
        }
    }
}

/// Appending a fresh key to an association list inserts it into the
/// map view.
pub proof fn lemma_assoc_map_push<K, T: View>(s: Seq<(K, T)>, k: K, v: T)
    requires
        assoc_distinct_keys(s),
        forall|j: int| 0 <= j < s.len() ==> (#[trigger] s[j]).0 != k,
    ensures
        assoc_distinct_keys(s.push((k, v))),
        assoc_map(s.push((k, v))) == assoc_map(s).insert(k, v@),
{
    let s2 = s.push((k, v));
    assert(s2.drop_last() =~= s);
    assert(s2.last() == (k, v));
    assert forall|a: int, b: int|
        0 <= a < b < s2.len() implies (#[trigger] s2[a]).0 != (#[trigger] s2[b]).0 by {
        if b == s2.len() - 1 {
            assert((s[a]).0 != k);
        }
    }
}

/// A sequence no element of which satisfies the predicate filters to
/// nothing.
pub proof fn lemma_filter_all_false<A>(s: Seq<A>, pred: spec_fn(A) -> bool)
    requires
        forall|i: int| 0 <= i < s.len() ==> !pred(#[trigger] s[i]),
    ensures
        s.filter(pred) == Seq::<A>::empty(),
    decreases s.len(),
{
    reveal(Seq::filter);
    if s.len() > 0 {
        lemma_filter_all_false(s.drop_last(), pred);
        assert(!pred(s.last()));
    }
    assert(s.filter(pred) =~= Seq::<A>::empty());
}

/// An element is in the filter exactly when it is in the sequence and
/// satisfies the predicate.
pub proof fn lemma_filter_membership<A>(s: Seq<A>, pred: spec_fn(A) -> bool, x: A)
    ensures
        s.filter(pred).contains(x) <==> s.contains(x) && pred(x),
    decreases s.len(),
{
    reveal(Seq::filter);
    if s.len() == 0 {
    } else {
        let butlast = s.drop_last();
        lemma_filter_membership(butlast, pred, x);
        lemma_filter_push(butlast, s.last(), pred);
        assert(butlast.push(s.last()) =~= s);
        if butlast.contains(x) {
            let i = choose|i: int| 0 <= i < butlast.len() && butlast[i] == x;
            assert(s[i] == x);
        }
        if s.contains(x) {
            let i = choose|i: int| 0 <= i < s.len() && s[i] == x;
            if i < s.len() - 1 {
                assert(butlast[i] == x);
            }
        }
        if butlast.filter(pred).contains(x) {
            let i = choose|i: int|
                0 <= i < butlast.filter(pred).len() && butlast.filter(pred)[i] == x;
            assert(s.filter(pred)[i] == x);
        }
        if s.filter(pred).contains(x) {
            let i = choose|i: int| 0 <= i < s.filter(pred).len() && s.filter(pred)[i] == x;
            if pred(s.last()) {
                if i < s.filter(pred).len() - 1 {
                    assert(butlast.filter(pred)[i] == x);
                }
            } else {
                assert(butlast.filter(pred)[i] == x);
            }
        }
    }
}

/// Filtering keeps a duplicate-free sequence duplicate-free.
pub proof fn lemma_filter_no_dup<A>(s: Seq<A>, pred: spec_fn(A) -> bool)
    requires
        forall|i: int, j: int| 0 <= i < j < s.len() ==> s[i] != s[j],
    ensures
        forall|i: int, j: int|
            0 <= i < j < s.filter(pred).len() ==> s.filter(pred)[i] != s.filter(pred)[j],
{
    broadcast use vstd::multiset::group_multiset_axioms;

    assert(s.no_duplicates());
    s.lemma_multiset_has_no_duplicates();
    lemma_filter_complement_multiset(s, pred);
    let f = s.filter(pred);
    let c = s.filter(|x: A| !pred(x));
    assert forall|x: A| f.to_multiset().contains(x) implies f.to_multiset().count(x) == 1 by {
        assert(f.to_multiset().count(x) + c.to_multiset().count(x) == s.to_multiset().count(x));
    }
    f.lemma_multiset_has_no_duplicates_conv();
}

/// The filters of a sequence under a predicate and its complement
/// together hold every element: their multisets add up to the whole.
pub proof fn lemma_filter_complement_multiset<A>(s: Seq<A>, pred: spec_fn(A) -> bool)
    ensures
        s.filter(pred).to_multiset().add(
            s.filter(|x: A| !pred(x)).to_multiset(),
        ) =~= s.to_multiset(),
    decreases s.len(),
{
    broadcast use group_seq_properties;

    if s.len() == 0 {
        reveal(Seq::filter);
        assert(s.filter(pred) =~= Seq::<A>::empty());
        assert(s.filter(|x: A| !pred(x)) =~= Seq::<A>::empty());
        assert(s.to_multiset() =~= Multiset::<A>::empty());
    } else {
        let butlast = s.drop_last();
        let x = s.last();
        lemma_filter_complement_multiset(butlast, pred);
        assert(butlast.push(x) =~= s);
        lemma_filter_push(butlast, x, pred);
        lemma_filter_push(butlast, x, |y: A| !pred(y));
        butlast.filter(pred).to_multiset_ensures();
        butlast.filter(|y: A| !pred(y)).to_multiset_ensures();
        butlast.to_multiset_ensures();
    }
}

/// The index in `s` of the element that lands at position `k` of the
/// filter.
pub open spec fn filter_index<A>(s: Seq<A>, pred: spec_fn(A) -> bool, k: int) -> int
    decreases s.len(),
{
    if s.len() == 0 {
        0
    } else if pred(s.last()) && k == s.filter(pred).len() - 1 {
        s.len() - 1
    } else {
        filter_index(s.drop_last(), pred, k)
    }
}

/// The filter keeps elements where they can be found: position `k` of
/// the filter is the element at `filter_index(s, pred, k)` of `s`.
pub proof fn lemma_filter_index<A>(s: Seq<A>, pred: spec_fn(A) -> bool, k: int)
    requires
        0 <= k < s.filter(pred).len(),
    ensures
        0 <= filter_index(s, pred, k) < s.len(),
        s[filter_index(s, pred, k)] == s.filter(pred)[k],
    decreases s.len(),
{
    reveal(Seq::filter);
    s.lemma_filter_len(pred);
    if s.len() > 0 {
        let b = s.drop_last();
        lemma_filter_push(b, s.last(), pred);
        assert(b.push(s.last()) =~= s);
        if pred(s.last()) && k == s.filter(pred).len() - 1 {
        } else {
            lemma_filter_index(b, pred, k);
            assert(s[filter_index(b, pred, k)] == b[filter_index(b, pred, k)]);
        }
    }
}

/// Earlier filter positions come from earlier places in the sequence:
/// the splitter's groups keep the input order.
pub proof fn lemma_filter_index_increasing<A>(
    s: Seq<A>,
    pred: spec_fn(A) -> bool,
    k1: int,
    k2: int,
)
    requires
        0 <= k1 < k2 < s.filter(pred).len(),
    ensures
        filter_index(s, pred, k1) < filter_index(s, pred, k2),
    decreases s.len(),
{
    reveal(Seq::filter);
    s.lemma_filter_len(pred);
    if s.len() > 0 {
        let b = s.drop_last();
        lemma_filter_push(b, s.last(), pred);
        assert(b.push(s.last()) =~= s);
        if pred(s.last()) && k2 == s.filter(pred).len() - 1 {
            lemma_filter_index(b, pred, k1);
        } else {
            lemma_filter_index_increasing(b, pred, k1, k2);
        }
    }
}

/// Filtering by a stronger predicate first changes nothing.
pub proof fn lemma_filter_filter<A>(s: Seq<A>, p: spec_fn(A) -> bool, q: spec_fn(A) -> bool)
    requires
        forall|x: A| #[trigger] p(x) ==> q(x),
    ensures
        s.filter(q).filter(p) == s.filter(p),
    decreases s.len(),
{
    reveal(Seq::filter);
    if s.len() > 0 {
        let b = s.drop_last();
        let x = s.last();
        lemma_filter_filter(b, p, q);
        lemma_filter_push(b, x, q);
        if q(x) {
            lemma_filter_push(b.filter(q), x, p);
        }
    }
}

} // verus!
