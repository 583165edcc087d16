//! A stable insertion sort by an integer key, with the facts about its
//! result that the rest of the crate builds on: it is in ascending order, it
//! holds the same items, and for items with distinct keys it does not depend
//! on the order in which they came.

use vstd::prelude::*;

verus! {

/// An item that is ordered by an integer key. `by` selects the key where an
/// item has more than one.
pub trait Keyed {
    spec fn key(&self, by: int) -> int;

    /// Whether the key of `self` is greater than that of `other`.
    fn key_exceeds(&self, other: &Self, by: i8) -> (r: bool)
        ensures
            r == (self.key(by as int) > other.key(by as int)),
    ;
}

/// Where `item` goes into the ascending sequence `s`: behind every item
/// whose key is not greater than its own.
pub open spec fn insert_at<T: Keyed>(s: Seq<T>, item: T, by: int) -> int
    decreases s.len(),
{
    if s.len() == 0 {
        0
    } else if s.last().key(by) > item.key(by) {
        insert_at(s.drop_last(), item, by)
    } else {
        s.len() as int
    }
}

/// The items of `s` in ascending order of their keys, items with equal keys
/// in the order in which they stand in `s`.
pub open spec fn sorted<T: Keyed>(s: Seq<T>, by: int) -> Seq<T>
    decreases s.len(),
{
    if s.len() == 0 {
        s
    } else {
        let front = sorted(s.drop_last(), by);
        front.insert(insert_at(front, s.last(), by), s.last())
    }
}

/// No item of `s` has a greater key than an item behind it.
pub open spec fn ascending<T: Keyed>(s: Seq<T>, by: int) -> bool {
    forall|i: int, j: int| 0 <= i < j < s.len() ==> s[i].key(by) <= s[j].key(by)
}

/// No two items of `s` have the same key.
pub open spec fn distinct_keys<T: Keyed>(s: Seq<T>, by: int) -> bool {
    forall|i: int, j: int| 0 <= i < j < s.len() ==> s[i].key(by) != s[j].key(by)
}

/// The insertion point lies in the sequence, with nothing greater before it
/// and nothing but greater keys from it on.
pub proof fn lemma_insert_at<T: Keyed>(s: Seq<T>, item: T, by: int)
    requires
        ascending(s, by),
    ensures
        0 <= insert_at(s, item, by) <= s.len(),
        forall|i: int| 0 <= i < insert_at(s, item, by) ==> s[i].key(by) <= item.key(by),
        forall|i: int| insert_at(s, item, by) <= i < s.len() ==> s[i].key(by) > item.key(by),
    decreases s.len(),
{
    if s.len() > 0 {
        let front = s.drop_last();
        assert forall|i: int, j: int| 0 <= i < j < front.len() implies front[i].key(by)
            <= front[j].key(by) by {
            assert(front[i] == s[i] && front[j] == s[j]);
        }
        if s.last().key(by) > item.key(by) {
            lemma_insert_at(front, item, by);
            assert forall|i: int| 0 <= i < insert_at(s, item, by) implies s[i].key(by)
                <= item.key(by) by {
                assert(front[i] == s[i]);
            }
            assert forall|i: int| insert_at(s, item, by) <= i < s.len() implies s[i].key(by)
                > item.key(by) by {
                if i < front.len() {
                    assert(front[i] == s[i]);
                }
            }
        } else {
            assert forall|i: int| 0 <= i < s.len() implies s[i].key(by) <= item.key(by) by {
                if i < s.len() - 1 {
                    assert(s[i].key(by) <= s[s.len() - 1].key(by));
                }
            }
        }
    }
}

/// The sorted sequence is as long as the given one, is in ascending order
/// and holds the same items, each as often as the given one.
pub proof fn lemma_sorted<T: Keyed>(s: Seq<T>, by: int)
    ensures
        sorted(s, by).len() == s.len(),
        ascending(sorted(s, by), by),
        sorted(s, by).to_multiset() == s.to_multiset(),
    decreases s.len(),
{
    if s.len() > 0 {
        let front = sorted(s.drop_last(), by);
        lemma_sorted(s.drop_last(), by);
        lemma_insert_at(front, s.last(), by);
        let p = insert_at(front, s.last(), by);
        vstd::seq_lib::to_multiset_insert(front, p, s.last());
        vstd::seq_lib::to_multiset_build(s.drop_last(), s.last());
        assert(s.drop_last().push(s.last()) =~= s);
    }
}

/// Two ascending sequences that hold the same items, no two of them with the
/// same key, are the same sequence.
pub proof fn lemma_ascending_unique<T: Keyed>(a: Seq<T>, b: Seq<T>, by: int)
    requires
        ascending(a, by),
        ascending(b, by),
        distinct_keys(a, by),
        a.to_multiset() == b.to_multiset(),
    ensures
        a == b,
    decreases a.len(),
{
    vstd::seq_lib::to_multiset_len(a);
    vstd::seq_lib::to_multiset_len(b);
    if a.len() > 0 {
        let x = a.last();
        let y = b.last();
        vstd::seq_lib::to_multiset_contains(a, x);
        vstd::seq_lib::to_multiset_contains(b, x);
        vstd::seq_lib::to_multiset_contains(a, y);
        vstd::seq_lib::to_multiset_contains(b, y);
        assert(a.contains(x));
        assert(b.contains(y));
        let i = choose|i: int| 0 <= i < b.len() && b[i] == x;
        let j = choose|j: int| 0 <= j < a.len() && a[j] == y;
        assert(x.key(by) <= y.key(by));
        assert(y.key(by) <= x.key(by));
        assert(j == a.len() - 1);
        assert(x == y);
        let a0 = a.drop_last();
        let b0 = b.drop_last();
        assert(a0 =~= a.remove(a.len() - 1));
        assert(b0 =~= b.remove(b.len() - 1));
        vstd::seq_lib::to_multiset_remove(a, a.len() - 1);
        vstd::seq_lib::to_multiset_remove(b, b.len() - 1);
        lemma_ascending_unique(a0, b0, by);
        assert(a =~= a0.push(x));
        assert(b =~= b0.push(y));
    }
}

/// For items with distinct keys the sorted sequence depends only on which
/// items there are, not on their order.
pub proof fn lemma_sorted_order_independent<T: Keyed>(a: Seq<T>, b: Seq<T>, by: int)
    requires
        distinct_keys(a, by),
        a.to_multiset() == b.to_multiset(),
    ensures
        sorted(a, by) == sorted(b, by),
{
    lemma_sorted(a, by);
    lemma_sorted(b, by);
    lemma_distinct_keys_permuted(a, sorted(a, by), by);
    lemma_ascending_unique(sorted(a, by), sorted(b, by), by);
}

/// Distinct keys stay distinct under any reordering.
pub proof fn lemma_distinct_keys_permuted<T: Keyed>(a: Seq<T>, b: Seq<T>, by: int)
    requires
        distinct_keys(a, by),
        a.to_multiset() == b.to_multiset(),
    ensures
        distinct_keys(b, by),
    decreases a.len(),
{
    vstd::seq_lib::to_multiset_len(a);
    vstd::seq_lib::to_multiset_len(b);
    if b.len() > 0 {
        let y = b.last();
        vstd::seq_lib::to_multiset_contains(a, y);
        vstd::seq_lib::to_multiset_contains(b, y);
        assert(b.contains(y));
        let j = choose|j: int| 0 <= j < a.len() && a[j] == y;
        let a0 = a.remove(j);
        let b0 = b.drop_last();
        assert(b0 =~= b.remove(b.len() - 1));
        vstd::seq_lib::to_multiset_remove(a, j);
        vstd::seq_lib::to_multiset_remove(b, b.len() - 1);
        assert forall|i: int, k: int| 0 <= i < k < a0.len() implies a0[i].key(by) != a0[k].key(
            by,
        ) by {
            let i1 = if i < j { i } else { i + 1 };
            let k1 = if k < j { k } else { k + 1 };
            assert(a0[i] == a[i1]);
            assert(a0[k] == a[k1]);
        }
        lemma_distinct_keys_permuted(a0, b0, by);
        assert forall|i: int, k: int| 0 <= i < k < b.len() implies b[i].key(by) != b[k].key(
            by,
        ) by {
            if k == b.len() - 1 {
                // b[i] is an item of a0, and no item of a0 has the key of y
                assert(b0[i] == b[i]);
                vstd::seq_lib::to_multiset_contains(b0, b[i]);
                vstd::seq_lib::to_multiset_contains(a0, b[i]);
                assert(b0.contains(b[i]));
                let m = choose|m: int| 0 <= m < a0.len() && a0[m] == b[i];
                let m1 = if m < j { m } else { m + 1 };
                assert(a0[m] == a[m1]);
                assert(m1 != j);
                if m1 < j {
                    assert(a[m1].key(by) != a[j].key(by));
                } else {
                    assert(a[j].key(by) != a[m1].key(by));
                }
            } else {
                assert(b0[i] == b[i]);
                assert(b0[k] == b[k]);
            }
        }
    }
}

/// Each item of a reordered sequence is an item of the sequence it was made
/// from.
pub proof fn lemma_item_of_permutation<T>(a: Seq<T>, b: Seq<T>, i: int) -> (j: int)
    requires
        a.to_multiset() == b.to_multiset(),
        0 <= i < b.len(),
    ensures
        0 <= j < a.len(),
        a[j] == b[i],
{
    vstd::seq_lib::to_multiset_contains(a, b[i]);
    vstd::seq_lib::to_multiset_contains(b, b[i]);
    assert(b.contains(b[i]));
    choose|j: int| 0 <= j < a.len() && a[j] == b[i]
}

/// Reordering commutes with mapping: the images of a reordered sequence are
/// the images of the sequence it was made from, reordered.
pub proof fn lemma_map_permuted<T, U>(a: Seq<T>, b: Seq<T>, f: spec_fn(T) -> U)
    requires
        a.to_multiset() == b.to_multiset(),
    ensures
        a.map_values(f).to_multiset() == b.map_values(f).to_multiset(),
    decreases a.len(),
{
    vstd::seq_lib::to_multiset_len(a);
    vstd::seq_lib::to_multiset_len(b);
    if a.len() == 0 {
        assert(a.map_values(f) =~= b.map_values(f));
    } else {
        let x = a.last();
        let j = lemma_item_of_permutation(b, a, a.len() - 1);
        let a0 = a.drop_last();
        let b0 = b.remove(j);
        assert(a0 =~= a.remove(a.len() - 1));
        vstd::seq_lib::to_multiset_remove(a, a.len() - 1);
        vstd::seq_lib::to_multiset_remove(b, j);
        lemma_map_permuted(a0, b0, f);
        assert(a.map_values(f) =~= a0.map_values(f).push(f(x)));
        assert(b.map_values(f) =~= b0.map_values(f).insert(j, f(x)));
        vstd::seq_lib::to_multiset_build(a0.map_values(f), f(x));
        vstd::seq_lib::to_multiset_insert(b0.map_values(f), j, f(x));
    }
}

/// Sorts the items of `v` from `lo` up to `hi` by their keys, and leaves the
/// rest of `v` alone.
pub fn sort_range<T: Keyed>(v: &mut Vec<T>, lo: usize, hi: usize, by: i8)
    requires
        lo <= hi <= old(v).len(),
    ensures
        final(v)@ == old(v)@.take(lo as int) + sorted(old(v)@.subrange(lo as int, hi as int), by as int)
            + old(v)@.skip(hi as int),
{
    let mut i: usize = lo;
    proof {
        assert(v@ =~= v@.take(lo as int) + sorted(v@.subrange(lo as int, lo as int), by as int)
            + v@.skip(lo as int));
    }
    while i < hi
        invariant
            lo <= i <= hi <= v.len(),
            v.len() == old(v).len(),
            v@ == old(v)@.take(lo as int) + sorted(old(v)@.subrange(lo as int, i as int), by as int)
                + old(v)@.skip(i as int),
        decreases hi - i,
    {
        let ghost front = sorted(old(v)@.subrange(lo as int, i as int), by as int);
        let ghost before = v@;
        proof {
            lemma_sorted(old(v)@.subrange(lo as int, i as int), by as int);
        }
        let item = v.remove(i);
        proof {
            assert(before[i as int] == old(v)@[i as int]);
            assert(front.take(i - lo) =~= front);
        }
        let mut p: usize = i;
        while p > lo && v[p - 1].key_exceeds(&item, by)
            invariant
                lo <= p <= i <= v.len(),
                i < before.len(),
                before.len() == old(v).len(),
                v@ == before.remove(i as int),
                before == old(v)@.take(lo as int) + front + old(v)@.skip(i as int),
                front.len() == i - lo,
                insert_at(front, item, by as int) == insert_at(
                    front.take(p - lo),
                    item,
                    by as int,
                ),
            decreases p,
        {
            proof {
                assert(v@[p - 1] == before[p - 1]);
                assert(before[p - 1] == front[p - 1 - lo]);
                assert(front.take(p - lo).last() == front[p - 1 - lo]);
                assert(front.take(p - lo).drop_last() =~= front.take(p - 1 - lo));
            }
            p -= 1;
        }
        proof {
            if p > lo {
                assert(v@[p - 1] == before[p - 1]);
                assert(before[p - 1] == front[p - 1 - lo]);
                assert(front.take(p - lo).last() == front[p - 1 - lo]);
            }
            assert(insert_at(front, item, by as int) == p - lo);
            assert(old(v)@.subrange(lo as int, i + 1).drop_last() =~= old(v)@.subrange(
                lo as int,
                i as int,
            ));
            assert(old(v)@.subrange(lo as int, i + 1).last() == item);
        }
        v.insert(p, item);
        proof {
            assert(v@ =~= old(v)@.take(lo as int) + sorted(
                old(v)@.subrange(lo as int, i + 1),
                by as int,
            ) + old(v)@.skip(i + 1));
        }
        i += 1;
    }
}

} // verus!
