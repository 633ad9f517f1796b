//! Sorted id lists as sets.

use vstd::prelude::*;

verus! {

/// Strictly ascending, hence without repeats.
pub open spec fn ascending(ids: Seq<u32>) -> bool {
    forall|i: int, j: int| 0 <= i < j < ids.len() ==> ids[i] < ids[j]
}

pub proof fn lemma_ascending_floor(ids: Seq<u32>, i: int)
    requires
        ascending(ids),
        0 <= i < ids.len(),
    ensures
        i <= ids[i],
    decreases i,
{
    if i > 0 {
        lemma_ascending_floor(ids, i - 1);
        assert(ids[i - 1] < ids[i]);
    }
}

pub proof fn lemma_ascending_len(ids: Seq<u32>)
    requires
        ascending(ids),
    ensures
        ids.len() <= 0x1_0000_0000,
{
    if ids.len() > 0 {
        lemma_ascending_floor(ids, ids.len() - 1);
    }
}

/// The ids of a list.
pub open spec fn id_set(ids: Seq<u32>) -> Set<u32> {
    Set::new(|id: u32| ids.contains(id))
}

/// In non-descending order.
pub open spec fn non_descending(ids: Seq<u32>) -> bool {
    forall|i: int, j: int| 0 <= i <= j < ids.len() ==> ids[i] <= ids[j]
}

/// Sorts ids with `slice::sort_unstable`, which orders the elements by their `Ord` and neither
/// adds nor drops any.
#[verifier::external_body]
pub(crate) fn sort_ids(ids: &mut Vec<u32>)
    ensures
        non_descending(final(ids)@),
        final(ids)@.to_multiset() == old(ids)@.to_multiset(),
{
    ids.sort_unstable();
}

proof fn lemma_same_multiset(a: Seq<u32>, b: Seq<u32>)
    requires
        a.to_multiset() == b.to_multiset(),
    ensures
        forall|x: u32| a.contains(x) <==> b.contains(x),
{
    a.to_multiset_ensures();
    b.to_multiset_ensures();
    assert forall|x: u32| a.contains(x) <==> b.contains(x) by {
        assert(a.contains(x) <==> a.to_multiset().count(x) > 0);
        assert(b.contains(x) <==> b.to_multiset().count(x) > 0);
    }
}

/// The same ids in ascending order, each once.
pub fn sort_dedup(list: Vec<u32>) -> (ids: Vec<u32>)
    ensures
        ascending(ids@),
        id_set(ids@) == id_set(list@),
{
    let mut sorted = list;
    sort_ids(&mut sorted);
    let mut ids: Vec<u32> = Vec::new();
    let mut i: usize = 0;
    while i < sorted.len()
        invariant
            i <= sorted.len(),
            non_descending(sorted@),
            ascending(ids@),
            forall|x: u32| ids@.contains(x) <==> sorted@.take(i as int).contains(x),
            ids.len() == 0 <==> i == 0,
            i > 0 ==> ids@.last() == sorted@[i - 1],
        decreases sorted.len() - i,
    {
        let ghost before = ids@;
        let next: u32 = sorted[i];
        let fresh: bool = if ids.len() == 0 { true } else { ids[ids.len() - 1] != next };
        if fresh {
            ids.push(next);
            assert(ids@[ids@.len() - 1] == next);
            assert forall|a: int, b: int| 0 <= a < b < ids@.len() implies ids@[a] < ids@[b] by {
                if b == before.len() {
                    assert(before[before.len() - 1] <= next);
                    if a < before.len() - 1 {
                        assert(before[a] < before[before.len() - 1]);
                    }
                }
            }
        }
        proof {
            let front = sorted@.take(i as int);
            let grown = sorted@.take(i + 1);
            assert(grown =~= front.push(next));
            assert forall|x: u32| ids@.contains(x) <==> grown.contains(x) by {
                if grown.contains(x) {
                    let k = choose|k: int| 0 <= k < grown.len() && grown[k] == x;
                    if k < i {
                        assert(front[k] == x);
                        assert(before.contains(x));
                        let m = choose|m: int| 0 <= m < before.len() && before[m] == x;
                        assert(ids@[m] == x);
                    } else {
                        assert(ids@[ids@.len() - 1] == x);
                    }
                }
                if ids@.contains(x) {
                    let k = choose|k: int| 0 <= k < ids@.len() && ids@[k] == x;
                    if k < before.len() {
                        assert(before[k] == x);
                        assert(before.contains(x));
                        assert(front.contains(x));
                        let m = choose|m: int| 0 <= m < front.len() && front[m] == x;
                        assert(grown[m] == x);
                    } else {
                        assert(grown[i as int] == x);
                    }
                }
            }
        }
        i = i + 1;
    }
    proof {
        assert(sorted@.take(i as int) =~= sorted@);
        lemma_same_multiset(sorted@, list@);
        assert(id_set(ids@) =~= id_set(list@));
    }
    ids
}

/// Intersection of two ascending lists.
pub fn intersect(a: &[u32], b: &[u32]) -> (out: Vec<u32>)
    requires
        ascending(a@),
        ascending(b@),
    ensures
        ascending(out@),
        id_set(out@) == id_set(a@).intersect(id_set(b@)),
{
    let mut out: Vec<u32> = Vec::new();
    let mut i: usize = 0;
    let mut j: usize = 0;
    while i < a.len() && j < b.len()
        invariant
            i <= a.len(),
            j <= b.len(),
            ascending(a@),
            ascending(b@),
            ascending(out@),
            forall|k: int| 0 <= k < out@.len() ==> a@.contains(#[trigger] out@[k]) && b@.contains(
                out@[k],
            ),
            forall|k: int, m: int| 0 <= k < out@.len() && i <= m < a@.len() ==> out@[k] < a@[m],
            forall|k: int, m: int|
                0 <= k < a@.len() && 0 <= m < b@.len() && (k < i || m < j) && a@[k] == b@[m]
                    ==> out@.contains(a@[k]),
        decreases a.len() - i + (b.len() - j),
    {
        let ghost before = out@;
        if a[i] < b[j] {
            assert forall|k: int, m: int|
                0 <= k < a@.len() && 0 <= m < b@.len() && (k < i + 1 || m < j) && a@[k]
                    == b@[m] implies out@.contains(a@[k]) by {
                if k == i && m > j {
                    assert(b@[j as int] < b@[m]);
                }
            }
            i = i + 1;
        } else if b[j] < a[i] {
            assert forall|k: int, m: int|
                0 <= k < a@.len() && 0 <= m < b@.len() && (k < i || m < j + 1) && a@[k]
                    == b@[m] implies out@.contains(a@[k]) by {
                if m == j && k > i {
                    assert(a@[i as int] < a@[k]);
                }
            }
            j = j + 1;
        } else {
            let x: u32 = a[i];
            out.push(x);
            proof {
                assert(a@[i as int] == x && b@[j as int] == x);
                assert(out@[before.len() as int] == x);
                assert forall|k: int| 0 <= k < out@.len() implies a@.contains(#[trigger] out@[k])
                    && b@.contains(out@[k]) by {
                    if k < before.len() {
                        assert(out@[k] == before[k]);
                    }
                }
                assert forall|k: int, m: int|
                    0 <= k < out@.len() && i + 1 <= m < a@.len() implies out@[k] < a@[m] by {
                    assert(a@[i as int] < a@[m]);
                    if k < before.len() {
                        assert(before[k] < a@[m]);
                    }
                }
                assert forall|k: int, m: int|
                    0 <= k < a@.len() && 0 <= m < b@.len() && (k < i + 1 || m < j + 1) && a@[k]
                        == b@[m] implies out@.contains(a@[k]) by {
                    if k < i || m < j {
                        assert(before.contains(a@[k]));
                        let w = choose|w: int| 0 <= w < before.len() && before[w] == a@[k];
                        assert(out@[w] == a@[k]);
                    } else {
                        if k > i {
                            assert(a@[i as int] < a@[k]);
                        }
                        if m > j {
                            assert(b@[j as int] < b@[m]);
                        }
                        assert(out@[before.len() as int] == a@[k]);
                    }
                }
            }
            i = i + 1;
            j = j + 1;
        }
    }
    proof {
        assert forall|x: u32| id_set(out@).contains(x) <==> id_set(a@).intersect(
            id_set(b@),
        ).contains(x) by {
            if out@.contains(x) {
                let k = choose|k: int| 0 <= k < out@.len() && out@[k] == x;
                assert(a@.contains(out@[k]));
            }
            if a@.contains(x) && b@.contains(x) {
                let k = choose|k: int| 0 <= k < a@.len() && a@[k] == x;
                let m = choose|m: int| 0 <= m < b@.len() && b@[m] == x;
                assert(a@[k] == b@[m]);
                assert(k < i || m < j);
            }
        }
        assert(id_set(out@) =~= id_set(a@).intersect(id_set(b@)));
    }
    out
}

/// `ids` holds `id`; `ids` must be ascending.
pub fn contains_id(ids: &[u32], id: u32) -> (found: bool)
    requires
        ascending(ids@),
    ensures
        found == ids@.contains(id),
{
    let mut low: usize = 0;
    let mut high: usize = ids.len();
    while low < high
        invariant
            ascending(ids@),
            low <= high <= ids.len(),
            forall|k: int| 0 <= k < low ==> ids@[k] < id,
            forall|k: int| high <= k < ids.len() ==> ids@[k] > id,
        decreases high - low,
    {
        let mid: usize = low + (high - low) / 2;
        let here: u32 = ids[mid];
        if here == id {
            assert(ids@[mid as int] == id);
            return true;
        }
        if here < id {
            assert forall|k: int| 0 <= k < mid + 1 implies ids@[k] < id by {
                if k < mid {
                    assert(ids@[k] < ids@[mid as int]);
                }
            }
            low = mid + 1;
        } else {
            assert forall|k: int| mid <= k < ids.len() implies ids@[k] > id by {
                if k > mid {
                    assert(ids@[mid as int] < ids@[k]);
                }
            }
            high = mid;
        }
    }
    false
}

pub proof fn lemma_push_contains<T>(list: Seq<T>, item: T)
    ensures
        forall|x: T| #[trigger] list.push(item).contains(x) <==> list.contains(x) || x == item,
{
    assert forall|x: T| #[trigger] list.push(item).contains(x) <==> list.contains(x) || x == item by {
        let more = list.push(item);
        assert(more[list.len() as int] == item);
        if list.contains(x) {
            let i = choose|i: int| 0 <= i < list.len() && list[i] == x;
            assert(more[i] == x);
        }
    }
}

pub proof fn lemma_take_contains<T>(list: Seq<T>, n: int)
    requires
        0 <= n < list.len(),
    ensures
        forall|x: T| #[trigger]
            list.take(n + 1).contains(x) <==> list.take(n).contains(x) || x == list[n],
{
    assert(list.take(n + 1) =~= list.take(n).push(list[n]));
    lemma_push_contains(list.take(n), list[n]);
}

} // verus!
