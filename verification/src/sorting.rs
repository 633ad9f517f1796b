//! Stable sorting by integer keys.

use vstd::prelude::*;

verus! {

/// Lexicographic order of keys.
pub open spec fn key_less(
    a: (int, int, int, int, int),
    b: (int, int, int, int, int),
) -> bool {
    a.0 < b.0 || (a.0 == b.0 && (a.1 < b.1 || (a.1 == b.1 && (a.2 < b.2 || (a.2 == b.2 && (a.3
        < b.3 || (a.3 == b.3 && a.4 < b.4)))))))
}

/// An item with a sort key.
pub trait Keyed: Sized {
    spec fn key(&self) -> (int, int, int, int, int);

    fn precedes(&self, other: &Self) -> (before: bool)
        ensures
            before == key_less(self.key(), other.key()),
    ;
}

/// Insert ahead of everything that does not come before `item`.
pub open spec fn insert_item<T: Keyed>(item: T, sorted: Seq<T>) -> Seq<T>
    decreases sorted.len(),
{
    if sorted.len() > 0 && key_less(sorted[0].key(), item.key()) {
        seq![sorted[0]] + insert_item(item, sorted.skip(1))
    } else {
        seq![item] + sorted
    }
}

/// The items by key, those with equal keys in their given order.
pub open spec fn sort_items<T: Keyed>(items: Seq<T>) -> Seq<T>
    decreases items.len(),
{
    if items.len() == 0 {
        Seq::empty()
    } else {
        insert_item(items[0], sort_items(items.skip(1)))
    }
}

/// No item comes before an earlier one.
pub open spec fn in_key_order<T: Keyed>(items: Seq<T>) -> bool {
    forall|i: int, j: int|
        0 <= i < j < items.len() ==> !key_less(
            (#[trigger] items[j]).key(),
            (#[trigger] items[i]).key(),
        )
}

proof fn lemma_insert_at<T: Keyed>(item: T, sorted: Seq<T>, at: int)
    requires
        0 <= at <= sorted.len(),
        forall|k: int| 0 <= k < at ==> key_less((#[trigger] sorted[k]).key(), item.key()),
        at < sorted.len() ==> !key_less(sorted[at].key(), item.key()),
    ensures
        insert_item(item, sorted) == sorted.insert(at, item),
    decreases at,
{
    if at > 0 {
        let rest = sorted.skip(1);
        assert(key_less(sorted[0].key(), item.key()));
        assert forall|k: int| 0 <= k < at - 1 implies key_less(
            (#[trigger] rest[k]).key(),
            item.key(),
        ) by {
            assert(rest[k] == sorted[k + 1]);
        }
        lemma_insert_at(item, rest, at - 1);
        assert(seq![sorted[0]] + rest.insert(at - 1, item) =~= sorted.insert(at, item));
    } else {
        assert(seq![item] + sorted =~= sorted.insert(0, item));
    }
}

/// Sort by key, keeping the order of items with equal keys.
pub fn stable_sort<T: Keyed>(items: Vec<T>) -> (sorted: Vec<T>)
    ensures
        sorted@ == sort_items(items@),
{
    let mut rest = items;
    let mut sorted: Vec<T> = Vec::new();
    assert(sorted@ =~= sort_items(items@.skip(rest@.len() as int)));
    while rest.len() > 0
        invariant
            rest@.len() <= items@.len(),
            rest@ == items@.take(rest@.len() as int),
            sorted@ == sort_items(items@.skip(rest@.len() as int)),
        decreases rest.len(),
    {
        if let Some(item) = rest.pop() {
            let ghost n = rest@.len() as int;
            let mut at: usize = 0;
            while at < sorted.len() && sorted[at].precedes(&item)
                invariant
                    at <= sorted.len(),
                    forall|k: int|
                        0 <= k < at ==> key_less((#[trigger] sorted@[k]).key(), item.key()),
                decreases sorted.len() - at,
            {
                at = at + 1;
            }
            proof {
                lemma_insert_at(item, sorted@, at as int);
                assert(items@.skip(n)[0] == item);
                assert(items@.skip(n).skip(1) =~= items@.skip(n + 1));
                assert(rest@ =~= items@.take(n));
            }
            sorted.insert(at, item);
        }
    }
    assert(items@.skip(0) =~= items@);
    sorted
}

pub proof fn lemma_insert_item<T: Keyed>(item: T, sorted: Seq<T>)
    requires
        in_key_order(sorted),
    ensures
        in_key_order(insert_item(item, sorted)),
        insert_item(item, sorted).len() == sorted.len() + 1,
        forall|x: T| #[trigger]
            insert_item(item, sorted).contains(x) <==> x == item || sorted.contains(x),
    decreases sorted.len(),
{
    let out = insert_item(item, sorted);
    if sorted.len() > 0 && key_less(sorted[0].key(), item.key()) {
        let rest = sorted.skip(1);
        assert(in_key_order(rest)) by {
            assert forall|i: int, j: int| 0 <= i < j < rest.len() implies !key_less(
                (#[trigger] rest[j]).key(),
                (#[trigger] rest[i]).key(),
            ) by {
                assert(rest[i] == sorted[i + 1] && rest[j] == sorted[j + 1]);
            }
        }
        lemma_insert_item(item, rest);
        let inner = insert_item(item, rest);
        assert forall|x: T| out.contains(x) <==> x == item || sorted.contains(x) by {
            if out.contains(x) {
                let k = choose|k: int| 0 <= k < out.len() && out[k] == x;
                if k > 0 {
                    assert(inner[k - 1] == x);
                    assert(inner.contains(x));
                    if x != item {
                        assert(insert_item(item, rest).contains(x));
                        assert(rest.contains(x));
                        let m = choose|m: int| 0 <= m < rest.len() && rest[m] == x;
                        assert(sorted[m + 1] == x);
                    }
                } else {
                    assert(sorted[0] == x);
                }
            }
            if sorted.contains(x) {
                let k = choose|k: int| 0 <= k < sorted.len() && sorted[k] == x;
                if k == 0 {
                    assert(out[0] == x);
                } else {
                    assert(rest[k - 1] == x);
                    assert(rest.contains(x));
                    assert(insert_item(item, rest).contains(x));
                    let m = choose|m: int| 0 <= m < inner.len() && inner[m] == x;
                    assert(out[m + 1] == x);
                }
            }
            if x == item {
                assert(insert_item(item, rest).contains(x));
                let m = choose|m: int| 0 <= m < inner.len() && inner[m] == x;
                assert(out[m + 1] == x);
            }
        }
        assert forall|i: int, j: int| 0 <= i < j < out.len() implies !key_less(
            (#[trigger] out[j]).key(),
            (#[trigger] out[i]).key(),
        ) by {
            assert(out[j] == inner[j - 1]);
            if i > 0 {
                assert(out[i] == inner[i - 1]);
            } else {
                assert(insert_item(item, rest).contains(inner[j - 1]));
                if inner[j - 1] != item {
                    assert(rest.contains(inner[j - 1]));
                    let m = choose|m: int| 0 <= m < rest.len() && rest[m] == inner[j - 1];
                    assert(sorted[m + 1] == inner[j - 1]);
                    assert(!key_less(sorted[m + 1].key(), sorted[0].key()));
                }
            }
        }
    } else {
        assert forall|x: T| out.contains(x) <==> x == item || sorted.contains(x) by {
            if out.contains(x) {
                let k = choose|k: int| 0 <= k < out.len() && out[k] == x;
                if k > 0 {
                    assert(sorted[k - 1] == x);
                }
            }
            if sorted.contains(x) {
                let k = choose|k: int| 0 <= k < sorted.len() && sorted[k] == x;
                assert(out[k + 1] == x);
            }
            assert(out[0] == item);
        }
        assert forall|i: int, j: int| 0 <= i < j < out.len() implies !key_less(
            (#[trigger] out[j]).key(),
            (#[trigger] out[i]).key(),
        ) by {
            assert(out[j] == sorted[j - 1]);
            if i > 0 {
                assert(out[i] == sorted[i - 1]);
            } else if j > 1 {
                assert(!key_less(sorted[j - 1].key(), sorted[0].key()));
            }
        }
    }
}

/// Sorting orders the items by key and keeps exactly the given items.
pub proof fn sorting_orders_and_keeps<T: Keyed>(items: Seq<T>)
    ensures
        in_key_order(sort_items(items)),
        sort_items(items).len() == items.len(),
        forall|x: T| #[trigger] sort_items(items).contains(x) <==> items.contains(x),
    decreases items.len(),
{
    if items.len() > 0 {
        let rest = items.skip(1);
        sorting_orders_and_keeps(rest);
        lemma_insert_item(items[0], sort_items(rest));
        assert forall|x: T| sort_items(items).contains(x) <==> items.contains(x) by {
            if items.contains(x) {
                let k = choose|k: int| 0 <= k < items.len() && items[k] == x;
                if k > 0 {
                    assert(rest[k - 1] == x);
                    assert(rest.contains(x));
                }
            }
            assert(sort_items(rest).contains(x) <==> rest.contains(x));
            assert(insert_item(items[0], sort_items(rest)).contains(x) <==> x == items[0]
                || sort_items(rest).contains(x));
            if rest.contains(x) {
                let k = choose|k: int| 0 <= k < rest.len() && rest[k] == x;
                assert(items[k + 1] == x);
            }
        }
    }
}

proof fn lemma_insert_distinct<T: Keyed>(item: T, sorted: Seq<T>)
    requires
        sorted.no_duplicates(),
        !sorted.contains(item),
    ensures
        insert_item(item, sorted).no_duplicates(),
        forall|x: T| #[trigger]
            insert_item(item, sorted).contains(x) <==> x == item || sorted.contains(x),
    decreases sorted.len(),
{
    let out = insert_item(item, sorted);
    let (head, tail) = if sorted.len() > 0 && key_less(sorted[0].key(), item.key()) {
        let rest = sorted.skip(1);
        assert forall|x: T| #[trigger] rest.contains(x) implies sorted.contains(x) && x
            != sorted[0] by {
            let k = choose|k: int| 0 <= k < rest.len() && rest[k] == x;
            assert(sorted[k + 1] == x);
        }
        lemma_insert_distinct(item, rest);
        (sorted[0], insert_item(item, rest))
    } else {
        (item, sorted)
    };
    assert(out == seq![head] + tail);
    assert(!tail.contains(head));
    assert forall|a: int, b: int| 0 <= a < out.len() && 0 <= b < out.len() && a
        != b implies out[a] != out[b] by {
        if a > 0 {
            assert(out[a] == tail[a - 1]);
            assert(tail.contains(tail[a - 1]));
        }
        if b > 0 {
            assert(out[b] == tail[b - 1]);
            assert(tail.contains(tail[b - 1]));
        }
    }
    assert forall|x: T| #[trigger] out.contains(x) <==> x == item || sorted.contains(x) by {
        assert(out.contains(x) <==> x == head || tail.contains(x)) by {
            assert(out[0] == head);
            if tail.contains(x) {
                let k = choose|k: int| 0 <= k < tail.len() && tail[k] == x;
                assert(out[k + 1] == x);
            }
            if out.contains(x) && x != head {
                let k = choose|k: int| 0 <= k < out.len() && out[k] == x;
                assert(tail[k - 1] == x);
            }
        }
        if sorted.len() > 0 && key_less(sorted[0].key(), item.key()) {
            let rest = sorted.skip(1);
            assert(tail.contains(x) <==> x == item || rest.contains(x));
            if sorted.contains(x) && x != sorted[0] {
                let k = choose|k: int| 0 <= k < sorted.len() && sorted[k] == x;
                assert(rest[k - 1] == x);
            }
            if rest.contains(x) {
                let k = choose|k: int| 0 <= k < rest.len() && rest[k] == x;
                assert(sorted[k + 1] == x);
            }
        }
    }
}

/// Items that differ still do after sorting.
pub proof fn sorting_keeps_distinct<T: Keyed>(items: Seq<T>)
    requires
        items.no_duplicates(),
    ensures
        sort_items(items).no_duplicates(),
    decreases items.len(),
{
    if items.len() > 0 {
        let rest = items.skip(1);
        sorting_keeps_distinct(rest);
        sorting_orders_and_keeps(rest);
        assert(!rest.contains(items[0])) by {
            if rest.contains(items[0]) {
                let k = choose|k: int| 0 <= k < rest.len() && rest[k] == items[0];
                assert(items[k + 1] == items[0]);
            }
        }
        assert(!sort_items(rest).contains(items[0]));
        lemma_insert_distinct(items[0], sort_items(rest));
    }
}

/// Where an item is put: behind what comes before it, ahead of everything else.
proof fn lemma_inserted<T: Keyed>(item: T, sorted: Seq<T>) -> (at: int)
    ensures
        0 <= at <= sorted.len(),
        insert_item(item, sorted) == sorted.insert(at, item),
        forall|k: int| 0 <= k < at ==> key_less((#[trigger] sorted[k]).key(), item.key()),
    decreases sorted.len(),
{
    if sorted.len() > 0 && key_less(sorted[0].key(), item.key()) {
        let rest = sorted.skip(1);
        let at = lemma_inserted(item, rest);
        assert(seq![sorted[0]] + rest.insert(at, item) =~= sorted.insert(at + 1, item));
        assert forall|k: int| 0 <= k < at + 1 implies key_less(
            (#[trigger] sorted[k]).key(),
            item.key(),
        ) by {
            if k > 0 {
                assert(rest[k - 1] == sorted[k]);
            }
        }
        at + 1
    } else {
        assert(seq![item] + sorted =~= sorted.insert(0, item));
        0
    }
}

/// `from` tells where each item of a rearrangement stood: every place is named once.
pub open spec fn rearranges<T>(from: Seq<int>, items: Seq<T>, sorted: Seq<T>) -> bool {
    &&& from.len() == items.len()
    &&& sorted.len() == items.len()
    &&& forall|k: int|
        0 <= k < from.len() ==> 0 <= #[trigger] from[k] < items.len() && sorted[k] == items[from[k]]
    &&& forall|a: int, b: int|
        0 <= a < b < from.len() ==> #[trigger] from[a] != #[trigger] from[b]
    &&& forall|i: int| 0 <= i < items.len() ==> #[trigger] from.contains(i)
}

/// Sorting rearranges the items, each of which stays once, by their keys; items with equal keys stay
/// in their given order.
pub proof fn sorting_rearranges<T: Keyed>(items: Seq<T>) -> (from: Seq<int>)
    ensures
        rearranges(from, items, sort_items(items)),
        in_key_order(sort_items(items)),
        forall|a: int, b: int|
            0 <= a < b < from.len() && sort_items(items)[a].key() == sort_items(items)[b].key()
                ==> #[trigger] from[a] < #[trigger] from[b],
    decreases items.len(),
{
    sorting_orders_and_keeps(items);
    if items.len() == 0 {
        Seq::empty()
    } else {
        let rest = items.skip(1);
        let inner = sorting_rearranges(rest);
        let held = sort_items(rest);
        let at = lemma_inserted(items[0], held);
        let moved = inner.map_values(|i: int| i + 1);
        let from = moved.insert(at, 0);
        let sorted = sort_items(items);
        assert(sorted == held.insert(at, items[0]));
        assert forall|k: int| 0 <= k < from.len() implies 0 <= #[trigger] from[k] < items.len()
            && sorted[k] == items[from[k]] by {
            if k < at {
                assert(from[k] == inner[k] + 1);
                assert(held[k] == rest[inner[k]]);
            } else if k > at {
                assert(from[k] == inner[k - 1] + 1);
                assert(held[k - 1] == rest[inner[k - 1]]);
            }
        }
        assert forall|a: int, b: int| 0 <= a < b < from.len() implies #[trigger] from[a]
            != #[trigger] from[b] by {
            let x = if a < at {
                a
            } else {
                a - 1
            };
            let y = if b < at {
                b
            } else {
                b - 1
            };
            if a == at {
                assert(from[b] == inner[y] + 1);
            } else if b == at {
                assert(from[a] == inner[x] + 1);
            } else {
                assert(from[a] == inner[x] + 1 && from[b] == inner[y] + 1);
                assert(inner[x] != inner[y]);
            }
        }
        assert forall|i: int| 0 <= i < items.len() implies #[trigger] from.contains(i) by {
            if i == 0 {
                assert(from[at] == 0);
            } else {
                assert(inner.contains(i - 1));
                let k = choose|k: int| 0 <= k < inner.len() && inner[k] == i - 1;
                let place = if k < at {
                    k
                } else {
                    k + 1
                };
                assert(from[place] == i);
            }
        }
        assert forall|a: int, b: int|
            0 <= a < b < from.len() && sorted[a].key() == sorted[b].key() implies #[trigger] from[a]
            < #[trigger] from[b] by {
            let x = if a < at {
                a
            } else {
                a - 1
            };
            let y = if b < at {
                b
            } else {
                b - 1
            };
            if a == at {
                assert(from[b] == inner[y] + 1);
            } else if b == at {
                assert(sorted[a] == held[a]);
                assert(key_less(held[a].key(), items[0].key()));
            } else {
                assert(sorted[a] == held[x] && sorted[b] == held[y]);
                assert(inner[x] < inner[y]);
                assert(from[a] == inner[x] + 1 && from[b] == inner[y] + 1);
            }
        }
        from
    }
}

} // verus!
