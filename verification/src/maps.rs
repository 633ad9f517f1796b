//! Ordered maps and sets as lists.

use std::collections::BTreeMap;
use vstd::prelude::*;


verus! {

/// The list holds the map's entries in key order.
pub open spec fn lists_entries<V>(list: Seq<(u64, V)>, map: Map<u64, V>) -> bool {
    &&& forall|i: int, j: int| 0 <= i < j < list.len() ==> (#[trigger] list[i]).0 < (
        #[trigger] list[j]).0
    &&& forall|i: int|
        0 <= i < list.len() ==> map.contains_key((#[trigger] list[i]).0) && map[list[i].0]
            == list[i].1
    &&& forall|k: u64| #[trigger]
        map.contains_key(k) ==> exists|i: int| 0 <= i < list.len() && (#[trigger] list[i]).0 == k
}

/// The entries of a map, in key order.
pub fn entries<V: Copy>(map: &BTreeMap<u64, V>) -> (list: Vec<(u64, V)>)
    ensures
        lists_entries(list@, map@),
{
    broadcast use vstd::std_specs::btree::group_btree_axioms;

    let mut list: Vec<(u64, V)> = Vec::new();
    let it = map.iter();
    let ghost all = vstd::std_specs::iter::IteratorSpec::remaining(&it);
    for kv in iter: it
        invariant
            iter.seq() == all,
            list@.len() == iter.index(),
            forall|i: int|
                0 <= i < list@.len() ==> (#[trigger] list@[i]).0 == *all[i].0 && list@[i].1
                    == *all[i].1,
    {
        list.push((*kv.0, *kv.1));
    }
    proof {
        let keys = all.map_values(|kv: (&u64, &V)| *kv.0);
        assert forall|i: int, j: int| 0 <= i < j < list@.len() implies (#[trigger] list@[i]).0 < (
        #[trigger] list@[j]).0 by {
            assert(vstd::std_specs::cmp::OrdSpec::cmp_spec(&keys[i], &keys[j]) is Less);
        }
        assert forall|k: u64| #[trigger] map@.contains_key(k) implies exists|i: int|
            0 <= i < list@.len() && (#[trigger] list@[i]).0 == k by {
            assert(all.contains((&k, &map@[k])));
            let i = choose|i: int| 0 <= i < all.len() && all[i] == (&k, &map@[k]);
            assert(list@[i].0 == k);
        }
        assert forall|i: int| 0 <= i < list@.len() implies map@.contains_key((#[trigger] list@[i]).0)
            && map@[list@[i].0] == list@[i].1 by {
            assert(map@.contains_key(*all[i].0));
        }
    }
    list
}

} // verus!
