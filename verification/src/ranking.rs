//! Stable sorting by an order that is not made of integers alone.

use crate::text::text_less;
use vstd::prelude::*;

verus! {

/// A type whose values have an order, in which different values may share a place.
pub trait Ranked: Sized {
    spec fn before(&self, other: &Self) -> bool;

    /// The order is strict, and places that are not before each other are the same place.
    proof fn order(a: &Self, b: &Self, c: &Self)
        ensures
            !a.before(a),
            a.before(b) && b.before(c) ==> a.before(c),
            !a.before(b) && !b.before(c) ==> !a.before(c),
    ;

    fn ranks_before(&self, other: &Self) -> (before: bool)
        ensures
            before == self.before(other),
    ;
}

/// Insert ahead of everything that does not come before `item`.
pub open spec fn rank_insert<T: Ranked>(item: T, sorted: Seq<T>) -> Seq<T>
    decreases sorted.len(),
{
    if sorted.len() > 0 && sorted[0].before(&item) {
        seq![sorted[0]] + rank_insert(item, sorted.skip(1))
    } else {
        seq![item] + sorted
    }
}

/// The items in order, those in one place in their given order.
pub open spec fn rank_sort<T: Ranked>(items: Seq<T>) -> Seq<T>
    decreases items.len(),
{
    if items.len() == 0 {
        Seq::empty()
    } else {
        rank_insert(items[0], rank_sort(items.skip(1)))
    }
}

/// No item comes before an earlier one.
pub open spec fn in_rank_order<T: Ranked>(items: Seq<T>) -> bool {
    forall|i: int, j: int|
        #![trigger items[i], items[j]]
        0 <= i < j < items.len() ==> !items[j].before(&items[i])
}

proof fn lemma_insert_at<T: Ranked>(item: T, sorted: Seq<T>, at: int)
    requires
        0 <= at <= sorted.len(),
        forall|k: int| 0 <= k < at ==> (#[trigger] sorted[k]).before(&item),
        at < sorted.len() ==> !sorted[at].before(&item),
    ensures
        rank_insert(item, sorted) == sorted.insert(at, item),
    decreases at,
{
    if at > 0 {
        let rest = sorted.skip(1);
        assert(sorted[0].before(&item));
        assert forall|k: int| 0 <= k < at - 1 implies (#[trigger] rest[k]).before(&item) by {
            assert(rest[k] == sorted[k + 1]);
        }
        lemma_insert_at(item, rest, at - 1);
        assert(seq![sorted[0]] + rest.insert(at - 1, item) =~= sorted.insert(at, item));
    } else {
        assert(seq![item] + sorted =~= sorted.insert(0, item));
    }
}

/// Sort by rank, keeping the order of items in one place.
pub fn rank_sorted<T: Ranked>(items: Vec<T>) -> (sorted: Vec<T>)
    ensures
        sorted@ == rank_sort(items@),
{
    let mut rest = items;
    let mut sorted: Vec<T> = Vec::new();
    assert(sorted@ =~= rank_sort(items@.skip(rest@.len() as int)));
    while rest.len() > 0
        invariant
            rest@.len() <= items@.len(),
            rest@ == items@.take(rest@.len() as int),
            sorted@ == rank_sort(items@.skip(rest@.len() as int)),
        decreases rest.len(),
    {
        if let Some(item) = rest.pop() {
            let ghost n = rest@.len() as int;
            let mut at: usize = 0;
            while at < sorted.len() && sorted[at].ranks_before(&item)
                invariant
                    at <= sorted.len(),
                    forall|k: int| 0 <= k < at ==> (#[trigger] sorted@[k]).before(&item),
                decreases sorted.len() - at,
            {
                at = at + 1;
            }
            proof {
                lemma_insert_at(item, sorted@, at as int);
                assert(items@.skip(n)[0] == item);
                assert(items@.skip(n).skip(1) =~= items@.skip(n + 1));
                assert(rest@ =~= items@.take(n));
            }
            sorted.insert(at, item);
        }
    }
    assert(items@.skip(0) =~= items@);
    sorted
}

proof fn lemma_insert_orders<T: Ranked>(item: T, sorted: Seq<T>)
    requires
        in_rank_order(sorted),
    ensures
        in_rank_order(rank_insert(item, sorted)),
        rank_insert(item, sorted).to_multiset() == sorted.to_multiset().insert(item),
    decreases sorted.len(),
{
    broadcast use vstd::seq_lib::group_to_multiset_ensures;

    let out = rank_insert(item, sorted);
    if sorted.len() > 0 && sorted[0].before(&item) {
        let rest = sorted.skip(1);
        assert(in_rank_order(rest)) by {
            assert forall|i: int, j: int|
                #![trigger rest[i], rest[j]]
                0 <= i < j < rest.len() implies !rest[j].before(&rest[i]) by {
                assert(rest[i] == sorted[i + 1] && rest[j] == sorted[j + 1]);
            }
        }
        lemma_insert_orders(item, rest);
        let inner = rank_insert(item, rest);
        assert(sorted =~= seq![sorted[0]] + rest);
        vstd::seq_lib::lemma_multiset_commutative(seq![sorted[0]], inner);
        vstd::seq_lib::lemma_multiset_commutative(seq![sorted[0]], rest);
        assert(out.to_multiset() =~= sorted.to_multiset().insert(item));
        assert forall|i: int, j: int|
            #![trigger out[i], out[j]]
            0 <= i < j < out.len() implies !out[j].before(&out[i]) by {
            assert(out[j] == inner[j - 1]);
            if i > 0 {
                assert(out[i] == inner[i - 1]);
            } else {
                let x = inner[j - 1];
                assert(inner.contains(x));
                assert(inner.to_multiset().count(x) > 0);
                if x == item {
                    T::order(&sorted[0], &item, &sorted[0]);
                } else {
                    assert(rest.to_multiset().count(x) > 0);
                    assert(rest.contains(x));
                    let m = choose|m: int| 0 <= m < rest.len() && rest[m] == x;
                    assert(sorted[m + 1] == x);
                }
            }
        }
    } else {
        vstd::seq_lib::lemma_multiset_commutative(seq![item], sorted);
        assert(out.to_multiset() =~= sorted.to_multiset().insert(item));
        assert forall|i: int, j: int|
            #![trigger out[i], out[j]]
            0 <= i < j < out.len() implies !out[j].before(&out[i]) by {
            assert(out[j] == sorted[j - 1]);
            if i > 0 {
                assert(out[i] == sorted[i - 1]);
            } else {
                if j > 1 {
                    assert(!sorted[j - 1].before(&sorted[0]));
                } else {
                    T::order(&sorted[0], &sorted[0], &sorted[0]);
                }
                T::order(&sorted[j - 1], &sorted[0], &item);
            }
        }
    }
}

/// Sorting orders the items and keeps exactly the given items.
pub proof fn ranking_orders_and_keeps<T: Ranked>(items: Seq<T>)
    ensures
        in_rank_order(rank_sort(items)),
        rank_sort(items).to_multiset() == items.to_multiset(),
    decreases items.len(),
{
    broadcast use vstd::seq_lib::group_to_multiset_ensures;

    if items.len() > 0 {
        let rest = items.skip(1);
        ranking_orders_and_keeps(rest);
        lemma_insert_orders(items[0], rank_sort(rest));
        assert(items =~= seq![items[0]] + rest);
        vstd::seq_lib::lemma_multiset_commutative(seq![items[0]], rest);
        assert(items.to_multiset() =~= rest.to_multiset().insert(items[0]));
    } else {
        assert(items =~= Seq::empty());
    }
}

/// Bytes in their order.
pub proof fn lemma_bytes_order(x: Seq<u8>, y: Seq<u8>, z: Seq<u8>)
    ensures
        !crate::text::bytes_before(x, x),
        crate::text::bytes_before(x, y) && crate::text::bytes_before(y, z)
            ==> crate::text::bytes_before(x, z),
        !crate::text::bytes_before(x, y) && !crate::text::bytes_before(y, z)
            ==> !crate::text::bytes_before(x, z),
{
    crate::text::lemma_before_irreflexive(x);
    if crate::text::bytes_before(x, y) && crate::text::bytes_before(y, z) {
        crate::text::lemma_before_transitive(x, y, z);
    }
    if !crate::text::bytes_before(x, y) && !crate::text::bytes_before(y, z)
        && crate::text::bytes_before(x, z) {
        crate::text::lemma_before_total(y, z);
        if crate::text::bytes_before(z, y) {
            crate::text::lemma_before_transitive(x, z, y);
        }
    }
}

/// Texts by their bytes.
pub proof fn lemma_text_order(a: Seq<char>, b: Seq<char>, c: Seq<char>)
    ensures
        !crate::text::text_before(a, a),
        crate::text::text_before(a, b) && crate::text::text_before(b, c)
            ==> crate::text::text_before(a, c),
        !crate::text::text_before(a, b) && !crate::text::text_before(b, c)
            ==> !crate::text::text_before(a, c),
{
    lemma_bytes_order(crate::text::utf8(a), crate::text::utf8(b), crate::text::utf8(c));
}

impl Ranked for String {
    open spec fn before(&self, other: &String) -> bool {
        crate::text::text_before(self@, other@)
    }

    proof fn order(a: &String, b: &String, c: &String) {
        lemma_text_order(a@, b@, c@);
    }

    fn ranks_before(&self, other: &String) -> (before: bool) {
        text_less(self.as_str(), other.as_str())
    }
}

} // verus!
