//! Updating an index: which listed objects to add, which indexed ones are gone, and what happens
//! to each segment.

use crate::error::IndexError;
use crate::format::{DeadSet, SegmentTables};
use crate::ids::{contains_id, sort_dedup};
use crate::query::Strategy;
use crate::segment::SegmentList;
use crate::source::SourceIdentity;
use crate::text::{joined, text_eq};
use vstd::hash_map::StringHashMap;
use vstd::hash_set::StringHashSet;
use vstd::prelude::*;

verus! {

/// More segments than this are merged.
pub const SEGMENT_COUNT_TARGET: usize = 8;

/// A segment is rewritten when one in this many of its documents, or of its bytes, is dead.
pub const REPACK_DEAD_FRACTION: u64 = 4;

/// A listed object: its key, version and size.
pub type ListedObject = (String, String, u64);

/// The model of a listed object.
pub type ObjectView = (Seq<char>, Seq<char>, u64);

pub open spec fn object_view(object: ListedObject) -> ObjectView {
    (object.0@, object.1@, object.2)
}

pub open spec fn object_views(listing: Seq<ListedObject>) -> Seq<ObjectView> {
    listing.map_values(|object: ListedObject| object_view(object))
}

/// Objects are ordered by key, then version, then size.
pub open spec fn object_before(a: ObjectView, b: ObjectView) -> bool {
    ||| crate::text::text_before(a.0, b.0)
    ||| a.0 == b.0 && crate::text::text_before(a.1, b.1)
    ||| a.0 == b.0 && a.1 == b.1 && a.2 < b.2
}

/// Sorts with `slice::sort_unstable`, which orders tuples by their fields in turn, strings by
/// their bytes, and neither adds nor drops any.
#[verifier::external_body]
fn sort_listing(listing: &mut Vec<ListedObject>)
    ensures
        forall|i: int, j: int|
            0 <= i < j < final(listing)@.len() ==> !object_before(
                object_view(#[trigger] final(listing)@[j]),
                object_view(#[trigger] final(listing)@[i]),
            ),
        object_views(final(listing)@).to_multiset() == object_views(old(listing)@).to_multiset(),
{
    listing.sort_unstable();
}

/// No key is listed twice.
pub open spec fn keys_distinct(listing: Seq<ListedObject>) -> bool {
    forall|i: int, j: int|
        0 <= i < j < listing.len() ==> (#[trigger] listing[i]).0@ != (#[trigger] listing[j]).0@
}

/// The key of object `at` is listed before it.
pub open spec fn listed_before(listing: Seq<ListedObject>, at: int) -> bool {
    exists|i: int| 0 <= i < at && (#[trigger] listing[i]).0@ == listing[at].0@
}

/// What is said of a key that is listed twice.
pub fn duplicate_message(listing: &[ListedObject], at: usize) -> (text: String)
    requires
        at < listing@.len(),
    ensures
        text@ == "duplicate listing key "@ + listing@[at as int].0@,
{
    joined("duplicate listing key ", listing[at].0.as_str())
}

/// Check that no key is listed twice.
pub fn check_listing(listing: &[ListedObject]) -> (checked: Result<(), IndexError>)
    ensures
        match checked {
            Ok(_) => keys_distinct(listing@),
            Err(IndexError::DuplicateListing { at }) => at < listing@.len() && listed_before(
                listing@,
                at as int,
            ) && forall|k: int| 0 <= k < at ==> !#[trigger] listed_before(listing@, k),
            Err(_) => false,
        },
{
    let mut seen: StringHashSet = StringHashSet::new();
    let mut i: usize = 0;
    while i < listing.len()
        invariant
            i <= listing.len(),
            forall|key: Seq<char>| #[trigger]
                seen@.contains(key) <==> exists|k: int|
                    0 <= k < i && (#[trigger] listing@[k]).0@ == key,
            forall|k: int| 0 <= k < i ==> !#[trigger] listed_before(listing@, k),
        decreases listing.len() - i,
    {
        let ghost before = seen@;
        if seen.contains(listing[i].0.as_str()) {
            assert(listed_before(listing@, i as int));
            return Err(IndexError::DuplicateListing { at: i });
        }
        assert(!listed_before(listing@, i as int)) by {
            assert(!seen@.contains(listing@[i as int].0@));
        }
        seen.insert(listing[i].0.clone());
        assert forall|key: Seq<char>| #[trigger] seen@.contains(key) <==> exists|k: int|
            0 <= k < i + 1 && (#[trigger] listing@[k]).0@ == key by {
            if before.contains(key) {
                let k = choose|k: int| 0 <= k < i && (#[trigger] listing@[k]).0@ == key;
                assert(listing@[k].0@ == key);
            }
            assert(listing@[i as int].0@ == listing@[i as int].0@);
        }
        i = i + 1;
    }
    proof {
        assert forall|a: int, b: int| 0 <= a < b < listing@.len() implies (
        #[trigger] listing@[a]).0@ != (#[trigger] listing@[b]).0@ by {
            assert(!listed_before(listing@, b));
        }
    }
    Ok(())
}

/// Source `i` of segment `s` is not dead.
pub open spec fn not_dead(
    tables: Seq<SegmentTables>,
    dead: Seq<DeadSet>,
    s: int,
    i: int,
) -> bool {
    0 <= s < tables.len() && 0 <= i < tables[s].sources@.len() && !dead[s].sources@.contains(
        i as u32,
    )
}

pub open spec fn pair_before(a: (int, int), b: (int, int)) -> bool {
    a.0 < b.0 || a.0 == b.0 && a.1 < b.1
}

/// A source after `(s, i)` that is not dead has the same key.
pub open spec fn superseded(
    tables: Seq<SegmentTables>,
    dead: Seq<DeadSet>,
    s: int,
    i: int,
) -> bool {
    exists|s2: int, i2: int| #[trigger]
        not_dead(tables, dead, s2, i2) && pair_before((s, i), (s2, i2))
            && tables[s2].sources@[i2].key@ == tables[s].sources@[i].key@
}

/// Source `i` of segment `s` is what the index holds under its key: the newest one wins.
pub open spec fn is_live(tables: Seq<SegmentTables>, dead: Seq<DeadSet>, s: int, i: int) -> bool {
    not_dead(tables, dead, s, i) && !superseded(tables, dead, s, i)
}

/// The list holds the live sources, in order.
pub open spec fn lists_live(
    list: Seq<(usize, u32)>,
    tables: Seq<SegmentTables>,
    dead: Seq<DeadSet>,
) -> bool {
    &&& forall|a: int, b: int|
        0 <= a < b < list.len() ==> pair_before(
            ((#[trigger] list[a]).0 as int, list[a].1 as int),
            ((#[trigger] list[b]).0 as int, list[b].1 as int),
        )
    &&& forall|a: int|
        0 <= a < list.len() ==> is_live(
            tables,
            dead,
            (#[trigger] list[a]).0 as int,
            list[a].1 as int,
        )
    &&& forall|s: int, i: int| #[trigger]
        is_live(tables, dead, s, i) ==> list.contains((s as usize, i as u32))
}

/// Ids of sources and documents fit 32 bits.
pub open spec fn tables_small(tables: Seq<SegmentTables>) -> bool {
    forall|s: int|
        0 <= s < tables.len() ==> (#[trigger] tables[s]).sources@.len() <= u32::MAX
            && tables[s].documents@.len() <= u32::MAX
}

/// What is known after the sources from `(s, i)` on have been walked, newest first.
spec fn walked(
    rev: Seq<(usize, u32)>,
    seen: Set<Seq<char>>,
    tables: Seq<SegmentTables>,
    dead: Seq<DeadSet>,
    s: int,
    i: int,
) -> bool {
    &&& forall|key: Seq<char>| #[trigger]
        seen.contains(key) <==> exists|s2: int, i2: int| #[trigger]
            not_dead(tables, dead, s2, i2) && !pair_before((s2, i2), (s, i))
                && tables[s2].sources@[i2].key@ == key
    &&& forall|a: int, b: int|
        0 <= a < b < rev.len() ==> pair_before(
            ((#[trigger] rev[b]).0 as int, rev[b].1 as int),
            ((#[trigger] rev[a]).0 as int, rev[a].1 as int),
        )
    &&& forall|a: int|
        0 <= a < rev.len() ==> is_live(
            tables,
            dead,
            (#[trigger] rev[a]).0 as int,
            rev[a].1 as int,
        ) && !pair_before((rev[a].0 as int, rev[a].1 as int), (s, i))
    &&& forall|s2: int, i2: int| #[trigger]
        is_live(tables, dead, s2, i2) && !pair_before((s2, i2), (s, i)) ==> rev.contains(
            (s2 as usize, i2 as u32),
        )
}

proof fn lemma_walk_start(tables: Seq<SegmentTables>, dead: Seq<DeadSet>)
    ensures
        walked(Seq::empty(), Set::empty(), tables, dead, tables.len() as int, 0),
{
}

/// Nothing lies between the first source of a segment and the end of the one before it.
proof fn lemma_walk_segment(
    rev: Seq<(usize, u32)>,
    seen: Set<Seq<char>>,
    tables: Seq<SegmentTables>,
    dead: Seq<DeadSet>,
    s: int,
)
    requires
        0 < s <= tables.len(),
        walked(rev, seen, tables, dead, s, 0),
    ensures
        walked(rev, seen, tables, dead, s - 1, tables[s - 1].sources@.len() as int),
{
    let i = tables[s - 1].sources@.len() as int;
    assert forall|s2: int, i2: int| #[trigger] not_dead(tables, dead, s2, i2) implies (
    !pair_before((s2, i2), (s, 0)) <==> !pair_before((s2, i2), (s - 1, i))) by {}
    assert forall|key: Seq<char>| #[trigger] seen.contains(key) <==> exists|s2: int, i2: int|
        #[trigger] not_dead(tables, dead, s2, i2) && !pair_before((s2, i2), (s - 1, i))
            && tables[s2].sources@[i2].key@ == key by {
        if seen.contains(key) {
            let (s2, i2) = choose|s2: int, i2: int| #[trigger]
                not_dead(tables, dead, s2, i2) && !pair_before((s2, i2), (s, 0))
                    && tables[s2].sources@[i2].key@ == key;
            assert(not_dead(tables, dead, s2, i2) && !pair_before((s2, i2), (s - 1, i)));
        } else if exists|s2: int, i2: int| #[trigger]
            not_dead(tables, dead, s2, i2) && !pair_before((s2, i2), (s - 1, i))
                && tables[s2].sources@[i2].key@ == key {
            let (s2, i2) = choose|s2: int, i2: int| #[trigger]
                not_dead(tables, dead, s2, i2) && !pair_before((s2, i2), (s - 1, i))
                    && tables[s2].sources@[i2].key@ == key;
            assert(not_dead(tables, dead, s2, i2) && !pair_before((s2, i2), (s, 0)));
        }
    }
}

proof fn lemma_walk_dead(
    rev: Seq<(usize, u32)>,
    seen: Set<Seq<char>>,
    tables: Seq<SegmentTables>,
    dead: Seq<DeadSet>,
    s: int,
    i: int,
)
    requires
        0 <= s < tables.len(),
        0 <= i < tables[s].sources@.len(),
        !not_dead(tables, dead, s, i),
        walked(rev, seen, tables, dead, s, i + 1),
    ensures
        walked(rev, seen, tables, dead, s, i),
{
    assert forall|key: Seq<char>| #[trigger] seen.contains(key) <==> exists|s2: int, i2: int|
        #[trigger] not_dead(tables, dead, s2, i2) && !pair_before((s2, i2), (s, i))
            && tables[s2].sources@[i2].key@ == key by {
        if seen.contains(key) {
            let (s2, i2) = choose|s2: int, i2: int| #[trigger]
                not_dead(tables, dead, s2, i2) && !pair_before((s2, i2), (s, i + 1))
                    && tables[s2].sources@[i2].key@ == key;
            assert(not_dead(tables, dead, s2, i2) && !pair_before((s2, i2), (s, i)));
        } else if exists|s2: int, i2: int| #[trigger]
            not_dead(tables, dead, s2, i2) && !pair_before((s2, i2), (s, i))
                && tables[s2].sources@[i2].key@ == key {
            let (s2, i2) = choose|s2: int, i2: int| #[trigger]
                not_dead(tables, dead, s2, i2) && !pair_before((s2, i2), (s, i))
                    && tables[s2].sources@[i2].key@ == key;
            assert(!pair_before((s2, i2), (s, i + 1)));
        }
    }
}

proof fn lemma_walk_source(
    rev: Seq<(usize, u32)>,
    seen: Set<Seq<char>>,
    tables: Seq<SegmentTables>,
    dead: Seq<DeadSet>,
    s: int,
    i: int,
)
    requires
        0 <= s < tables.len(),
        s <= usize::MAX,
        tables_small(tables),
        not_dead(tables, dead, s, i),
        walked(rev, seen, tables, dead, s, i + 1),
    ensures
        ({
            let key = tables[s].sources@[i].key@;
            &&& seen.contains(key) <==> superseded(tables, dead, s, i)
            &&& walked(
                if seen.contains(key) {
                    rev
                } else {
                    rev.push((s as usize, i as u32))
                },
                seen.insert(key),
                tables,
                dead,
                s,
                i,
            )
        }),
{
    let key = tables[s].sources@[i].key@;
    let more = seen.insert(key);
    assert(tables[s].sources@.len() <= u32::MAX);
    if seen.contains(key) {
        let (s2, i2) = choose|s2: int, i2: int| #[trigger]
            not_dead(tables, dead, s2, i2) && !pair_before((s2, i2), (s, i + 1))
                && tables[s2].sources@[i2].key@ == key;
        assert(not_dead(tables, dead, s2, i2) && pair_before((s, i), (s2, i2)));
    } else if superseded(tables, dead, s, i) {
        let (s2, i2) = choose|s2: int, i2: int| #[trigger]
            not_dead(tables, dead, s2, i2) && pair_before((s, i), (s2, i2))
                && tables[s2].sources@[i2].key@ == key;
        assert(not_dead(tables, dead, s2, i2) && !pair_before((s2, i2), (s, i + 1)));
    }
    assert forall|k: Seq<char>| #[trigger] more.contains(k) <==> exists|s2: int, i2: int|
        #[trigger] not_dead(tables, dead, s2, i2) && !pair_before((s2, i2), (s, i))
            && tables[s2].sources@[i2].key@ == k by {
        if seen.contains(k) {
            let (s2, i2) = choose|s2: int, i2: int| #[trigger]
                not_dead(tables, dead, s2, i2) && !pair_before((s2, i2), (s, i + 1))
                    && tables[s2].sources@[i2].key@ == k;
            assert(not_dead(tables, dead, s2, i2) && !pair_before((s2, i2), (s, i)));
        } else if k == key {
            assert(not_dead(tables, dead, s, i) && !pair_before((s, i), (s, i)));
        } else if exists|s2: int, i2: int| #[trigger]
            not_dead(tables, dead, s2, i2) && !pair_before((s2, i2), (s, i))
                && tables[s2].sources@[i2].key@ == k {
            let (s2, i2) = choose|s2: int, i2: int| #[trigger]
                not_dead(tables, dead, s2, i2) && !pair_before((s2, i2), (s, i))
                    && tables[s2].sources@[i2].key@ == k;
            assert(!pair_before((s2, i2), (s, i + 1)));
        }
    }
    let out = if seen.contains(key) {
        rev
    } else {
        rev.push((s as usize, i as u32))
    };
    assert forall|s2: int, i2: int| #[trigger] is_live(tables, dead, s2, i2) && !pair_before(
        (s2, i2),
        (s, i),
    ) implies out.contains((s2 as usize, i2 as u32)) by {
        if s2 == s && i2 == i {
            assert(out[rev.len() as int] == (s as usize, i as u32));
        } else {
            assert(!pair_before((s2, i2), (s, i + 1)));
            assert(rev.contains((s2 as usize, i2 as u32)));
            let a = choose|a: int| 0 <= a < rev.len() && rev[a] == (s2 as usize, i2 as u32);
            assert(out[a] == rev[a]);
        }
    }
    assert forall|a: int| 0 <= a < out.len() implies is_live(
        tables,
        dead,
        (#[trigger] out[a]).0 as int,
        out[a].1 as int,
    ) && !pair_before((out[a].0 as int, out[a].1 as int), (s, i)) by {
        if a < rev.len() {
            assert(out[a] == rev[a]);
        }
    }
    assert forall|a: int, b: int| 0 <= a < b < out.len() implies pair_before(
        ((#[trigger] out[b]).0 as int, out[b].1 as int),
        ((#[trigger] out[a]).0 as int, out[a].1 as int),
    ) by {
        assert(out[a] == rev[a]);
        if b < rev.len() {
            assert(out[b] == rev[b]);
        } else {
            assert(!pair_before((rev[a].0 as int, rev[a].1 as int), (s, i + 1)));
        }
    }
}

/// The live sources of the segments, oldest segment first.
pub fn live_sources(tables: &[SegmentTables], dead: &[DeadSet]) -> (live: Vec<(usize, u32)>)
    requires
        tables@.len() == dead@.len(),
        tables_small(tables@),
        forall|s: int| 0 <= s < dead@.len() ==> (#[trigger] dead@[s]).ordered(),
    ensures
        lists_live(live@, tables@, dead@),
{
    let mut rev: Vec<(usize, u32)> = Vec::new();
    let mut seen: StringHashSet = StringHashSet::new();
    let mut s: usize = tables.len();
    proof {
        assert(seen@ =~= Set::empty());
        assert(rev@ =~= Seq::empty());
        lemma_walk_start(tables@, dead@);
    }
    while s > 0
        invariant
            s <= tables.len(),
            tables@.len() == dead@.len(),
            tables_small(tables@),
            forall|k: int| 0 <= k < dead@.len() ==> (#[trigger] dead@[k]).ordered(),
            walked(rev@, seen@, tables@, dead@, s as int, 0),
        decreases s,
    {
        proof {
            lemma_walk_segment(rev@, seen@, tables@, dead@, s as int);
        }
        s = s - 1;
        let table = &tables[s];
        let gone = &dead[s];
        assert(tables@[s as int].sources@.len() <= u32::MAX);
        assert(dead@[s as int].ordered());
        let mut i: usize = table.sources.len();
        while i > 0
            invariant
                s < tables.len(),
                *table == tables@[s as int],
                *gone == dead@[s as int],
                gone.ordered(),
                i <= table.sources.len() <= u32::MAX,
                tables@.len() == dead@.len(),
                tables_small(tables@),
                walked(rev@, seen@, tables@, dead@, s as int, i as int),
            decreases i,
        {
            i = i - 1;
            if contains_id(gone.sources.as_slice(), i as u32) {
                proof {
                    lemma_walk_dead(rev@, seen@, tables@, dead@, s as int, i as int);
                }
            } else {
                proof {
                    lemma_walk_source(rev@, seen@, tables@, dead@, s as int, i as int);
                }
                let key = &table.sources[i].key;
                if !seen.contains(key.as_str()) {
                    rev.push((s, i as u32));
                }
                seen.insert(key.clone());
            }
        }
    }
    let mut live: Vec<(usize, u32)> = Vec::new();
    let ghost all = rev@;
    while rev.len() > 0
        invariant
            rev@.len() <= all.len(),
            rev@ == all.take(rev@.len() as int),
            live@.len() == all.len() - rev@.len(),
            forall|a: int| 0 <= a < live@.len() ==> #[trigger] live@[a] == all[all.len() - 1 - a],
        decreases rev.len(),
    {
        if let Some(pair) = rev.pop() {
            live.push(pair);
            assert(rev@ =~= all.take(rev@.len() as int));
        }
    }
    proof {
        assert forall|s: int, i: int| #[trigger] is_live(tables@, dead@, s, i) implies live@.contains(
            (s as usize, i as u32),
        ) by {
            assert(all.contains((s as usize, i as u32)));
            let a = choose|a: int| 0 <= a < all.len() && all[a] == (s as usize, i as u32);
            assert(live@[all.len() - 1 - a] == all[a]);
        }
        assert forall|a: int, b: int| 0 <= a < b < live@.len() implies pair_before(
            ((#[trigger] live@[a]).0 as int, live@[a].1 as int),
            ((#[trigger] live@[b]).0 as int, live@[b].1 as int),
        ) by {
            assert(live@[a] == all[all.len() - 1 - a] && live@[b] == all[all.len() - 1 - b]);
        }
        assert forall|a: int| 0 <= a < live@.len() implies is_live(
            tables@,
            dead@,
            (#[trigger] live@[a]).0 as int,
            live@[a].1 as int,
        ) by {
            assert(live@[a] == all[all.len() - 1 - a]);
        }
    }
    live
}

/// The index holds the object under its key, in its version, and need not try it again.
pub open spec fn settled_with(object: ObjectView, source: crate::format::SourceEntry) -> bool {
    object.0 == source.key@ && object.1 == source.version@ && !source.retry
}

/// A live source settles the object.
pub open spec fn settled(
    tables: Seq<SegmentTables>,
    dead: Seq<DeadSet>,
    object: ObjectView,
) -> bool {
    exists|s: int, i: int| #[trigger]
        is_live(tables, dead, s, i) && settled_with(object, tables[s].sources@[i])
}

/// A listed object is what the source holds.
pub open spec fn still_listed(
    listing: Seq<ListedObject>,
    source: crate::format::SourceEntry,
) -> bool {
    exists|j: int|
        0 <= j < listing.len() && settled_with(object_view(#[trigger] listing[j]), source)
}

/// The objects to add, in key order: those listed that no live source settles.
pub open spec fn lists_additions(
    to_add: Seq<ListedObject>,
    listing: Seq<ListedObject>,
    tables: Seq<SegmentTables>,
    dead: Seq<DeadSet>,
) -> bool {
    &&& forall|a: int, b: int|
        0 <= a < b < to_add.len() ==> crate::text::text_before(
            (#[trigger] to_add[a]).0@,
            (#[trigger] to_add[b]).0@,
        )
    &&& forall|v: ObjectView| #[trigger]
        object_views(to_add).contains(v) <==> object_views(listing).contains(v) && !settled(
            tables,
            dead,
            v,
        )
}

/// The sources that die, in order: the live ones that are not listed as they are.
pub open spec fn lists_removals(
    gone: Seq<(usize, u32)>,
    listing: Seq<ListedObject>,
    tables: Seq<SegmentTables>,
    dead: Seq<DeadSet>,
) -> bool {
    &&& forall|a: int, b: int|
        0 <= a < b < gone.len() ==> pair_before(
            ((#[trigger] gone[a]).0 as int, gone[a].1 as int),
            ((#[trigger] gone[b]).0 as int, gone[b].1 as int),
        )
    &&& forall|a: int|
        0 <= a < gone.len() ==> is_live(
            tables,
            dead,
            (#[trigger] gone[a]).0 as int,
            gone[a].1 as int,
        ) && !still_listed(listing, tables[gone[a].0 as int].sources@[gone[a].1 as int])
    &&& forall|s: int, i: int| #[trigger]
        is_live(tables, dead, s, i) && !still_listed(listing, tables[s].sources@[i])
            ==> gone.contains((s as usize, i as u32))
}

/// No two live sources have the same key.
pub proof fn live_keys_are_distinct(
    tables: Seq<SegmentTables>,
    dead: Seq<DeadSet>,
    s: int,
    i: int,
    s2: int,
    i2: int,
)
    requires
        is_live(tables, dead, s, i),
        is_live(tables, dead, s2, i2),
        tables[s].sources@[i].key@ == tables[s2].sources@[i2].key@,
    ensures
        s == s2 && i == i2,
{
    if pair_before((s, i), (s2, i2)) {
        assert(not_dead(tables, dead, s2, i2));
        assert(superseded(tables, dead, s, i));
    } else if pair_before((s2, i2), (s, i)) {
        assert(not_dead(tables, dead, s, i));
        assert(superseded(tables, dead, s2, i2));
    }
}

spec fn live_key(tables: Seq<SegmentTables>, pair: (usize, u32)) -> Seq<char> {
    tables[pair.0 as int].sources@[pair.1 as int].key@
}

/// Live sources by key.
fn live_by_key(
    tables: &[SegmentTables],
    dead: &[DeadSet],
    live: &[(usize, u32)],
) -> (map: StringHashMap<usize>)
    requires
        tables@.len() == dead@.len(),
        lists_live(live@, tables@, dead@),
    ensures
        forall|key: Seq<char>| #[trigger]
            map@.contains_key(key) ==> map@[key] < live@.len() && live_key(
                tables@,
                live@[map@[key] as int],
            ) == key,
        forall|a: int|
            0 <= a < live@.len() ==> map@.contains_key(live_key(tables@, #[trigger] live@[a])),
{
    let mut map: StringHashMap<usize> = StringHashMap::new();
    let mut a: usize = 0;
    while a < live.len()
        invariant
            a <= live.len(),
            tables@.len() == dead@.len(),
            lists_live(live@, tables@, dead@),
            forall|key: Seq<char>| #[trigger]
                map@.contains_key(key) ==> map@[key] < a && live_key(
                    tables@,
                    live@[map@[key] as int],
                ) == key,
            forall|b: int|
                0 <= b < a ==> map@.contains_key(live_key(tables@, #[trigger] live@[b])),
        decreases live.len() - a,
    {
        let (s, i): (usize, u32) = live[a];
        assert(is_live(tables@, dead@, live@[a as int].0 as int, live@[a as int].1 as int));
        map.insert(tables[s].sources[i as usize].key.clone(), a);
        a = a + 1;
    }
    map
}

fn copy_object(object: &ListedObject) -> (copy: ListedObject)
    ensures
        object_view(copy) == object_view(*object),
{
    (object.0.clone(), object.1.clone(), object.2)
}

/// The listed objects that have to be read, in key order.
#[verifier::rlimit(30)]
pub fn additions(
    listing: &[ListedObject],
    tables: &[SegmentTables],
    dead: &[DeadSet],
    live: &[(usize, u32)],
) -> (to_add: Vec<ListedObject>)
    requires
        keys_distinct(listing@),
        tables@.len() == dead@.len(),
        tables_small(tables@),
        lists_live(live@, tables@, dead@),
    ensures
        lists_additions(to_add@, listing@, tables@, dead@),
{
    let map = live_by_key(tables, dead, live);
    let mut to_add: Vec<ListedObject> = Vec::new();
    let mut j: usize = 0;
    assert(object_views(to_add@) =~= Seq::empty());
    while j < listing.len()
        invariant
            j <= listing.len(),
            keys_distinct(listing@),
            tables@.len() == dead@.len(),
            tables.len() == tables@.len(),
            tables_small(tables@),
            lists_live(live@, tables@, dead@),
            forall|key: Seq<char>| #[trigger]
                map@.contains_key(key) ==> map@[key] < live@.len() && live_key(
                    tables@,
                    live@[map@[key] as int],
                ) == key,
            forall|a: int|
                0 <= a < live@.len() ==> map@.contains_key(live_key(tables@, #[trigger] live@[a])),
            forall|v: ObjectView| #[trigger]
                object_views(to_add@).contains(v) <==> object_views(listing@).take(
                    j as int,
                ).contains(v) && !settled(tables@, dead@, v),
            object_views(to_add@).no_duplicates(),
        decreases listing.len() - j,
    {
        let object = &listing[j];
        let ghost view = object_view(*object);
        let mut stale: bool = true;
        match map.get(object.0.as_str()) {
            Some(at) => {
                let (s, i): (usize, u32) = live[*at];
                assert(is_live(tables@, dead@, live@[*at as int].0 as int, live@[*at as int].1 as int));
                let source = &tables[s].sources[i as usize];
                stale = source.retry || !text_eq(source.version.as_str(), object.1.as_str());
                proof {
                    if stale && settled(tables@, dead@, view) {
                        let (s2, i2) = choose|s2: int, i2: int| #[trigger]
                            is_live(tables@, dead@, s2, i2) && settled_with(
                                view,
                                tables@[s2].sources@[i2],
                            );
                        live_keys_are_distinct(tables@, dead@, s as int, i as int, s2, i2);
                    }
                }
            },
            None => {
                proof {
                    if settled(tables@, dead@, view) {
                        let (s2, i2) = choose|s2: int, i2: int| #[trigger]
                            is_live(tables@, dead@, s2, i2) && settled_with(
                                view,
                                tables@[s2].sources@[i2],
                            );
                        assert(live@.contains((s2 as usize, i2 as u32)));
                        let a = choose|a: int|
                            0 <= a < live@.len() && live@[a] == (s2 as usize, i2 as u32);
                        assert(is_live(tables@, dead@, live@[a].0 as int, live@[a].1 as int));
                        assert(tables@[s2].sources@.len() <= u32::MAX);
                        assert(map@.contains_key(live_key(tables@, live@[a])));
                    }
                }
            },
        }
        let ghost before = object_views(to_add@);
        proof {
            assert(stale <==> !settled(tables@, dead@, view));
            crate::ids::lemma_take_contains(object_views(listing@), j as int);
            assert(object_views(listing@)[j as int] == view);
        }
        if stale {
            to_add.push(copy_object(object));
            proof {
                assert(object_views(to_add@) =~= before.push(view));
                crate::ids::lemma_push_contains(before, view);
                assert(!before.contains(view)) by {
                    if before.contains(view) {
                        let k = choose|k: int|
                            0 <= k < j && object_views(listing@).take(j as int)[k] == view;
                        assert(listing@[k].0@ == listing@[j as int].0@);
                    }
                }
            }
        }
        j = j + 1;
    }
    assert(object_views(listing@).take(j as int) =~= object_views(listing@));
    let ghost unsorted = object_views(to_add@);
    sort_listing(&mut to_add);
    proof {
        let sorted = object_views(to_add@);
        unsorted.lemma_multiset_has_no_duplicates();
        sorted.lemma_multiset_has_no_duplicates_conv();
        unsorted.to_multiset_ensures();
        sorted.to_multiset_ensures();
        assert forall|v: ObjectView| #[trigger] sorted.contains(v) <==> unsorted.contains(v) by {
            assert(sorted.contains(v) <==> sorted.to_multiset().count(v) > 0);
            assert(unsorted.contains(v) <==> unsorted.to_multiset().count(v) > 0);
        }
        assert forall|a: int, b: int| 0 <= a < b < to_add@.len() implies crate::text::text_before(
            (#[trigger] to_add@[a]).0@,
            (#[trigger] to_add@[b]).0@,
        ) by {
            assert(sorted[a] == object_view(to_add@[a]) && sorted[b] == object_view(to_add@[b]));
            assert(!object_before(sorted[b], sorted[a]));
            assert(sorted.contains(sorted[a]) && sorted.contains(sorted[b]));
            let views = object_views(listing@);
            let p = choose|p: int| 0 <= p < views.len() && views[p] == sorted[a];
            let q = choose|q: int| 0 <= q < views.len() && views[q] == sorted[b];
            assert(listing@[p].0@ == sorted[a].0 && listing@[q].0@ == sorted[b].0);
            crate::text::lemma_before_total(
                crate::text::utf8(sorted[a].0),
                crate::text::utf8(sorted[b].0),
            );
            if crate::text::utf8(sorted[a].0) == crate::text::utf8(sorted[b].0) {
                crate::text::lemma_utf8_injective(sorted[a].0, sorted[b].0);
                assert(p == q);
            }
        }
    }
    to_add
}

/// Listed objects by key.
fn listed_by_key(listing: &[ListedObject]) -> (map: StringHashMap<usize>)
    requires
        keys_distinct(listing@),
    ensures
        forall|key: Seq<char>| #[trigger]
            map@.contains_key(key) ==> map@[key] < listing@.len() && listing@[map@[key] as int].0@
                == key,
        forall|j: int| 0 <= j < listing@.len() ==> map@.contains_key((#[trigger] listing@[j]).0@),
{
    let mut map: StringHashMap<usize> = StringHashMap::new();
    let mut j: usize = 0;
    while j < listing.len()
        invariant
            j <= listing.len(),
            forall|key: Seq<char>| #[trigger]
                map@.contains_key(key) ==> map@[key] < j && listing@[map@[key] as int].0@ == key,
            forall|k: int| 0 <= k < j ==> map@.contains_key((#[trigger] listing@[k]).0@),
        decreases listing.len() - j,
    {
        map.insert(listing[j].0.clone(), j);
        j = j + 1;
    }
    map
}

/// The live sources that are no longer listed as they are, in order.
#[verifier::rlimit(30)]
pub fn removals(
    listing: &[ListedObject],
    tables: &[SegmentTables],
    dead: &[DeadSet],
    live: &[(usize, u32)],
) -> (gone: Vec<(usize, u32)>)
    requires
        keys_distinct(listing@),
        tables@.len() == dead@.len(),
        tables_small(tables@),
        lists_live(live@, tables@, dead@),
    ensures
        lists_removals(gone@, listing@, tables@, dead@),
{
    let map = listed_by_key(listing);
    let mut gone: Vec<(usize, u32)> = Vec::new();
    let mut a: usize = 0;
    while a < live.len()
        invariant
            a <= live.len(),
            keys_distinct(listing@),
            tables@.len() == dead@.len(),
            lists_live(live@, tables@, dead@),
            forall|key: Seq<char>| #[trigger]
                map@.contains_key(key) ==> map@[key] < listing@.len() && listing@[map@[key] as int].0@
                    == key,
            forall|j: int|
                0 <= j < listing@.len() ==> map@.contains_key((#[trigger] listing@[j]).0@),
            forall|p: int, q: int|
                0 <= p < q < gone@.len() ==> pair_before(
                    ((#[trigger] gone@[p]).0 as int, gone@[p].1 as int),
                    ((#[trigger] gone@[q]).0 as int, gone@[q].1 as int),
                ),
            forall|p: int|
                0 <= p < gone@.len() ==> is_live(
                    tables@,
                    dead@,
                    (#[trigger] gone@[p]).0 as int,
                    gone@[p].1 as int,
                ) && !still_listed(
                    listing@,
                    tables@[gone@[p].0 as int].sources@[gone@[p].1 as int],
                ) && exists|b: int| 0 <= b < a && live@[b] == gone@[p],
            forall|b: int|
                0 <= b < a && !still_listed(
                    listing@,
                    tables@[(#[trigger] live@[b]).0 as int].sources@[live@[b].1 as int],
                ) ==> gone@.contains(live@[b]),
        decreases live.len() - a,
    {
        let (s, i): (usize, u32) = live[a];
        assert(is_live(tables@, dead@, live@[a as int].0 as int, live@[a as int].1 as int));
        let source = &tables[s].sources[i as usize];
        let mut stays: bool = false;
        match map.get(source.key.as_str()) {
            Some(at) => {
                stays = !source.retry && text_eq(source.version.as_str(), listing[*at].1.as_str());
                proof {
                    if stays {
                        assert(settled_with(object_view(listing@[*at as int]), *source));
                    } else if still_listed(listing@, *source) {
                        let j = choose|j: int|
                            0 <= j < listing@.len() && settled_with(
                                object_view(#[trigger] listing@[j]),
                                *source,
                            );
                        assert(listing@[j].0@ == listing@[*at as int].0@);
                    }
                }
            },
            None => {
                proof {
                    if still_listed(listing@, *source) {
                        let j = choose|j: int|
                            0 <= j < listing@.len() && settled_with(
                                object_view(#[trigger] listing@[j]),
                                *source,
                            );
                        assert(map@.contains_key(listing@[j].0@));
                    }
                }
            },
        }
        assert(stays <==> still_listed(listing@, *source));
        let ghost before = gone@;
        if !stays {
            gone.push((s, i));
            proof {
                crate::ids::lemma_push_contains(before, (s, i));
            }
        }
        proof {
            assert forall|p: int, q: int| 0 <= p < q < gone@.len() implies pair_before(
                ((#[trigger] gone@[p]).0 as int, gone@[p].1 as int),
                ((#[trigger] gone@[q]).0 as int, gone@[q].1 as int),
            ) by {
                if q == before.len() {
                    let b = choose|b: int| 0 <= b < a && live@[b] == before[p];
                    assert(pair_before(
                        (live@[b].0 as int, live@[b].1 as int),
                        (live@[a as int].0 as int, live@[a as int].1 as int),
                    ));
                }
            }
            assert forall|p: int| 0 <= p < gone@.len() implies is_live(
                tables@,
                dead@,
                (#[trigger] gone@[p]).0 as int,
                gone@[p].1 as int,
            ) && !still_listed(
                listing@,
                tables@[gone@[p].0 as int].sources@[gone@[p].1 as int],
            ) && exists|b: int| 0 <= b < a + 1 && live@[b] == gone@[p] by {
                if p < before.len() {
                    let b = choose|b: int| 0 <= b < a && live@[b] == before[p];
                    assert(live@[b] == gone@[p]);
                } else {
                    assert(live@[a as int] == gone@[p]);
                }
            }
        }
        a = a + 1;
    }
    proof {
        assert forall|s: int, i: int| #[trigger] is_live(tables@, dead@, s, i) && !still_listed(
            listing@,
            tables@[s].sources@[i],
        ) implies gone@.contains((s as usize, i as u32)) by {
            assert(tables.len() == tables@.len());
            assert(tables@[s].sources@.len() <= u32::MAX);
            assert(live@.contains((s as usize, i as u32)));
            let b = choose|b: int| 0 <= b < live@.len() && live@[b] == (s as usize, i as u32);
            assert(!still_listed(
                listing@,
                tables@[live@[b].0 as int].sources@[live@[b].1 as int],
            ));
        }
    }
    gone
}

/// Source `i` of segment `s` is live before the update and does not die in it.
pub open spec fn survives(
    gone: Seq<(usize, u32)>,
    tables: Seq<SegmentTables>,
    dead: Seq<DeadSet>,
    s: int,
    i: int,
) -> bool {
    is_live(tables, dead, s, i) && !gone.contains((s as usize, i as u32))
}

/// After an update the index holds what is listed, and nothing else: every listed object is added
/// or held by a source that survives, never both, and every source that survives holds a listed
/// object in its version.
pub proof fn updates_match_listings(
    listing: Seq<ListedObject>,
    to_add: Seq<ListedObject>,
    gone: Seq<(usize, u32)>,
    tables: Seq<SegmentTables>,
    dead: Seq<DeadSet>,
    j: int,
    s: int,
    i: int,
)
    requires
        tables_small(tables),
        tables.len() <= usize::MAX,
        lists_additions(to_add, listing, tables, dead),
        lists_removals(gone, listing, tables, dead),
    ensures
        0 <= j < listing.len() ==> ({
            let object = object_view(listing[j]);
            object_views(to_add).contains(object) <==> !exists|s2: int, i2: int| #[trigger]
                survives(gone, tables, dead, s2, i2) && settled_with(
                    object,
                    tables[s2].sources@[i2],
                )
        }),
        survives(gone, tables, dead, s, i) ==> still_listed(listing, tables[s].sources@[i]),
{
    if 0 <= j < listing.len() {
        let object = object_view(listing[j]);
        assert(object_views(listing)[j] == object);
        assert(object_views(listing).contains(object));
        if settled(tables, dead, object) {
            let (s2, i2) = choose|s2: int, i2: int| #[trigger]
                is_live(tables, dead, s2, i2) && settled_with(object, tables[s2].sources@[i2]);
            assert(still_listed(listing, tables[s2].sources@[i2]));
            assert(tables[s2].sources@.len() <= u32::MAX);
            if gone.contains((s2 as usize, i2 as u32)) {
                let a = choose|a: int| 0 <= a < gone.len() && gone[a] == (s2 as usize, i2 as u32);
                assert(!still_listed(
                    listing,
                    tables[gone[a].0 as int].sources@[gone[a].1 as int],
                ));
            }
            assert(survives(gone, tables, dead, s2, i2));
        } else if exists|s2: int, i2: int| #[trigger]
            survives(gone, tables, dead, s2, i2) && settled_with(object, tables[s2].sources@[i2]) {
            let (s2, i2) = choose|s2: int, i2: int| #[trigger]
                survives(gone, tables, dead, s2, i2) && settled_with(
                    object,
                    tables[s2].sources@[i2],
                );
            assert(is_live(tables, dead, s2, i2));
        }
    }
}

/// Document `d` is one of source `i`.
pub open spec fn doc_of(tables: SegmentTables, i: int, d: u32) -> bool {
    tables.sources@[i].first_doc <= d < tables.sources@[i].first_doc + tables.sources@[i].doc_count
}

/// The dead set once the sources of `gone` in segment `s` are dead too, each with its documents.
pub open spec fn grown_dead(
    grown: DeadSet,
    dead: DeadSet,
    tables: SegmentTables,
    gone: Seq<(usize, u32)>,
    s: usize,
) -> bool {
    &&& grown.ordered()
    &&& forall|i: u32| #[trigger]
        grown.sources@.contains(i) <==> dead.sources@.contains(i) || gone.contains((s, i))
    &&& forall|d: u32| #[trigger]
        grown.documents@.contains(d) <==> dead.documents@.contains(d) || exists|i: u32| #[trigger]
            gone.contains((s, i)) && doc_of(tables, i as int, d)
}

/// The dead set with more sources, and their documents, added.
#[verifier::rlimit(30)]
pub fn with_dead(
    dead: &DeadSet,
    tables: &SegmentTables,
    gone: &[(usize, u32)],
    s: usize,
) -> (grown: DeadSet)
    requires
        crate::format::table_error(*tables) is None,
        tables.documents@.len() <= u32::MAX,
        forall|i: u32| #[trigger] gone@.contains((s, i)) ==> i < tables.sources@.len(),
    ensures
        grown_dead(grown, *dead, *tables, gone@, s),
{
    let mut sources: Vec<u32> = dead.sources.clone();
    let mut documents: Vec<u32> = dead.documents.clone();
    let mut k: usize = 0;
    proof {
        assert(sources@ =~= dead.sources@);
        assert(documents@ =~= dead.documents@);
    }
    while k < gone.len()
        invariant
            k <= gone.len(),
            crate::format::table_error(*tables) is None,
            tables.documents@.len() <= u32::MAX,
            forall|i: u32| #[trigger] gone@.contains((s, i)) ==> i < tables.sources@.len(),
            forall|i: u32| #[trigger]
                sources@.contains(i) <==> dead.sources@.contains(i) || gone@.take(
                    k as int,
                ).contains((s, i)),
            forall|d: u32| #[trigger]
                documents@.contains(d) <==> dead.documents@.contains(d) || exists|i: u32|
                    #[trigger] gone@.take(k as int).contains((s, i)) && doc_of(
                        *tables,
                        i as int,
                        d,
                    ),
        decreases gone.len() - k,
    {
        let ghost front = gone@.take(k as int);
        let ghost more = gone@.take(k + 1);
        proof {
            crate::ids::lemma_take_contains(gone@, k as int);
        }
        let (segment, id): (usize, u32) = gone[k];
        if segment == s {
            let ghost held = sources@;
            let ghost docs = documents@;
            proof {
                assert(gone@[k as int] == (s, id));
                assert(gone@.contains((s, id)));
                crate::format::valid_source_range(*tables, id as int);
                crate::ids::lemma_push_contains(held, id);
            }
            sources.push(id);
            let first: u32 = tables.sources[id as usize].first_doc;
            let end: u32 = first + tables.sources[id as usize].doc_count;
            let mut d: u32 = first;
            while d < end
                invariant
                    first <= d <= end,
                    forall|x: u32| #[trigger]
                        documents@.contains(x) <==> docs.contains(x) || first <= x < d,
                decreases end - d,
            {
                proof {
                    crate::ids::lemma_push_contains(documents@, d);
                }
                documents.push(d);
                d = d + 1;
            }
            assert forall|x: u32| #[trigger] documents@.contains(x) <==> dead.documents@.contains(x)
                || exists|i: u32| #[trigger] more.contains((s, i)) && doc_of(
                *tables,
                i as int,
                x,
            ) by {
                if docs.contains(x) && !dead.documents@.contains(x) {
                    let i = choose|i: u32| #[trigger]
                        front.contains((s, i)) && doc_of(*tables, i as int, x);
                    assert(more.contains((s, i)));
                }
                if first <= x < end {
                    assert(more.contains((s, id)) && doc_of(*tables, id as int, x));
                }
                if exists|i: u32| #[trigger] more.contains((s, i)) && doc_of(
                    *tables,
                    i as int,
                    x,
                ) {
                    let i = choose|i: u32| #[trigger]
                        more.contains((s, i)) && doc_of(*tables, i as int, x);
                    if i != id {
                        assert(front.contains((s, i)));
                    }
                }
            }
        } else {
            assert forall|i: u32| #[trigger] more.contains((s, i)) <==> front.contains((s, i)) by {}
            assert forall|x: u32| #[trigger] documents@.contains(x) <==> dead.documents@.contains(x)
                || exists|i: u32| #[trigger] more.contains((s, i)) && doc_of(
                *tables,
                i as int,
                x,
            ) by {
                if exists|i: u32| #[trigger] front.contains((s, i)) && doc_of(
                    *tables,
                    i as int,
                    x,
                ) {
                    let i = choose|i: u32| #[trigger]
                        front.contains((s, i)) && doc_of(*tables, i as int, x);
                    assert(more.contains((s, i)));
                }
                if exists|i: u32| #[trigger] more.contains((s, i)) && doc_of(
                    *tables,
                    i as int,
                    x,
                ) {
                    let i = choose|i: u32| #[trigger]
                        more.contains((s, i)) && doc_of(*tables, i as int, x);
                    assert(front.contains((s, i)));
                }
            }
        }
        k = k + 1;
    }
    assert(gone@.take(k as int) =~= gone@);
    let ghost all_sources = sources@;
    let ghost all_documents = documents@;
    let sources = sort_dedup(sources);
    let documents = sort_dedup(documents);
    proof {
        assert forall|i: u32| #[trigger] sources@.contains(i) <==> all_sources.contains(i) by {
            assert(crate::ids::id_set(sources@).contains(i) <==> crate::ids::id_set(
                all_sources,
            ).contains(i));
        }
        assert forall|d: u32| #[trigger] documents@.contains(d) <==> all_documents.contains(d) by {
            assert(crate::ids::id_set(documents@).contains(d) <==> crate::ids::id_set(
                all_documents,
            ).contains(d));
        }
    }
    DeadSet { sources, documents }
}

/// A dead set stays valid as it grows.
pub proof fn grown_dead_stays_valid(
    grown: DeadSet,
    dead: DeadSet,
    tables: SegmentTables,
    gone: Seq<(usize, u32)>,
    s: usize,
)
    requires
        crate::format::table_error(tables) is None,
        tables.documents@.len() <= u32::MAX,
        dead.ordered(),
        crate::format::dead_error(dead, tables) is None,
        forall|i: u32| #[trigger] gone.contains((s, i)) ==> i < tables.sources@.len(),
        grown_dead(grown, dead, tables, gone, s),
    ensures
        crate::format::dead_error(grown, tables) is None,
{
    if grown.sources@.len() > 0 {
        let last = grown.sources@.last();
        assert(grown.sources@.contains(last));
        crate::format::lemma_dead_bounds(dead, tables);
    }
    if grown.documents@.len() > 0 {
        let last = grown.documents@.last();
        assert(grown.documents@.contains(last));
        crate::format::lemma_dead_bounds(dead, tables);
        if !dead.documents@.contains(last) {
            let i = choose|i: u32| #[trigger]
                gone.contains((s, i)) && doc_of(tables, i as int, last);
            crate::format::valid_source_range(tables, i as int);
        }
    }
    lemma_grown_sources(grown, dead, tables, gone, s, 0);
}

proof fn lemma_grown_sources(
    grown: DeadSet,
    dead: DeadSet,
    tables: SegmentTables,
    gone: Seq<(usize, u32)>,
    s: usize,
    k: int,
)
    requires
        crate::format::table_error(tables) is None,
        tables.documents@.len() <= u32::MAX,
        dead.ordered(),
        crate::format::dead_error(dead, tables) is None,
        forall|i: u32| #[trigger] gone.contains((s, i)) ==> i < tables.sources@.len(),
        grown_dead(grown, dead, tables, gone, s),
        0 <= k <= grown.sources@.len(),
    ensures
        crate::format::dead_sources_error(grown, tables, k) is None,
    decreases grown.sources@.len() - k,
{
    crate::format::lemma_dead_bounds(dead, tables);
    if k < grown.sources@.len() {
        lemma_grown_sources(grown, dead, tables, gone, s, k + 1);
        let id = grown.sources@[k];
        assert(grown.sources@.contains(id));
        crate::format::valid_source_range(tables, id as int);
        assert forall|d: u32|
            tables.sources@[id as int].first_doc <= d < tables.sources@[id as int].first_doc
                + tables.sources@[id as int].doc_count implies #[trigger] grown.documents@.contains(
            d,
        ) by {
            if gone.contains((s, id)) {
                assert(doc_of(tables, id as int, d));
            } else {
                crate::format::valid_doc_source(tables, id as int, d as int);
                crate::format::dead_documents_follow_sources(dead, tables, d);
            }
        }
    } else {
        assert forall|j: int| 0 <= j < grown.documents@.len() implies grown.sources@.contains(
            tables.documents@[#[trigger] grown.documents@[j] as int].source_id,
        ) by {
            let d = grown.documents@[j];
            assert(grown.documents@.contains(d));
            if dead.documents@.contains(d) {
                crate::format::dead_documents_follow_sources(dead, tables, d);
            } else {
                let i = choose|i: u32| #[trigger]
                    gone.contains((s, i)) && doc_of(tables, i as int, d);
                crate::format::valid_source_range(tables, i as int);
                crate::format::valid_doc_source(tables, i as int, d as int);
            }
        }
    }
}

/// Bytes of the first `n` documents of `ids`.
pub open spec fn bytes_of(tables: SegmentTables, ids: Seq<u32>, n: int) -> nat
    decreases n,
{
    if n <= 0 {
        0
    } else {
        bytes_of(tables, ids, n - 1) + tables.documents@[ids[n - 1] as int].decoded_size as nat
    }
}

/// At most the largest 64-bit number.
pub open spec fn at_most(n: int) -> int {
    if n > u64::MAX {
        u64::MAX as int
    } else {
        n
    }
}

/// Enough of a segment's documents, or of its bytes, are dead to rewrite it.
pub open spec fn mostly_dead(doc_count: u32, tables: SegmentTables, dead: DeadSet) -> bool {
    let total = at_most(
        crate::format::doc_bytes_before(tables.documents@, tables.documents@.len()) as int,
    );
    let gone = at_most(bytes_of(tables, dead.documents@, dead.documents@.len() as int) as int);
    &&& dead.documents@.len() > 0
    &&& dead.documents@.len() * REPACK_DEAD_FRACTION >= doc_count || total > 0 && at_most(
        gone * REPACK_DEAD_FRACTION,
    ) >= total
}

fn scaled(n: u64) -> (product: u64)
    ensures
        product == at_most(n * REPACK_DEAD_FRACTION),
{
    match n.checked_mul(REPACK_DEAD_FRACTION) {
        Some(product) => product,
        None => u64::MAX,
    }
}

/// Whether so much of a segment is dead that it should be written anew.
pub fn should_repack(doc_count: u32, tables: &SegmentTables, dead: &DeadSet) -> (repack: bool)
    requires
        forall|d: u32| #[trigger] dead.documents@.contains(d) ==> d < tables.documents@.len(),
    ensures
        repack == mostly_dead(doc_count, *tables, *dead),
{
    if dead.documents.len() == 0 {
        return false;
    }
    let count: u64 = scaled(dead.documents.len() as u64);
    if count >= doc_count as u64 {
        return true;
    }
    let mut total: u64 = 0;
    let mut i: usize = 0;
    while i < tables.documents.len()
        invariant
            i <= tables.documents.len(),
            total == at_most(
                crate::format::doc_bytes_before(tables.documents@, i as nat) as int,
            ),
        decreases tables.documents.len() - i,
    {
        total = total.saturating_add(tables.documents[i].decoded_size);
        i = i + 1;
    }
    let mut gone: u64 = 0;
    let mut k: usize = 0;
    while k < dead.documents.len()
        invariant
            k <= dead.documents.len(),
            forall|d: u32| #[trigger] dead.documents@.contains(d) ==> d < tables.documents@.len(),
            gone == at_most(bytes_of(*tables, dead.documents@, k as int) as int),
        decreases dead.documents.len() - k,
    {
        let d: u32 = dead.documents[k];
        assert(dead.documents@.contains(dead.documents@[k as int]));
        gone = gone.saturating_add(tables.documents[d as usize].decoded_size);
        k = k + 1;
    }
    total > 0 && scaled(gone) >= total
}

/// What an update does with a segment.
#[derive(Debug, Clone, Copy, PartialEq, Eq, Structural)]
pub enum SegmentAction {
    /// All of its sources are dead: leave it out.
    Drop,
    /// Keep it as it is.
    Keep,
    /// Write it anew without what is dead.
    Repack,
    /// Keep it with a new dead set.
    Record,
}

/// What is done with a segment whose dead set is now `dead`.
pub open spec fn action_of(
    doc_count: u32,
    tables: SegmentTables,
    dead: DeadSet,
    changed: bool,
    purge: bool,
) -> SegmentAction {
    if dead.sources@.len() == tables.sources@.len() {
        SegmentAction::Drop
    } else if dead.sources@.len() == 0 {
        SegmentAction::Keep
    } else if purge || mostly_dead(doc_count, tables, dead) {
        SegmentAction::Repack
    } else if changed {
        SegmentAction::Record
    } else {
        SegmentAction::Keep
    }
}

/// What an index run did.
#[derive(Debug, Clone, Copy, PartialEq, Eq, Structural)]
pub struct UpdateReport {
    pub added: usize,
    pub removed: usize,
    pub total_docs: usize,
    pub segments: usize,
    pub compacted: bool,
    pub up_to_date: bool,
}

/// Documents of the first `n` live sources, failed ones left out.
pub open spec fn live_docs(tables: Seq<SegmentTables>, live: Seq<(usize, u32)>, n: int) -> nat
    decreases n,
{
    if n <= 0 {
        0
    } else {
        let source = tables[live[n - 1].0 as int].sources@[live[n - 1].1 as int];
        live_docs(tables, live, n - 1) + if source.failed {
            0nat
        } else {
            source.doc_count as nat
        }
    }
}

/// A count of documents, at most the largest that the machine can hold.
pub open spec fn counted(n: int) -> int {
    if n > usize::MAX {
        usize::MAX as int
    } else {
        n
    }
}

/// How many documents the live sources have.
pub fn live_doc_count(tables: &[SegmentTables], live: &[(usize, u32)]) -> (total: usize)
    requires
        forall|a: int|
            0 <= a < live@.len() ==> (#[trigger] live@[a]).0 < tables@.len() && live@[a].1
                < tables@[live@[a].0 as int].sources@.len(),
    ensures
        total == counted(live_docs(tables@, live@, live@.len() as int) as int),
{
    let mut total: usize = 0;
    let mut a: usize = 0;
    while a < live.len()
        invariant
            a <= live.len(),
            forall|b: int|
                0 <= b < live@.len() ==> (#[trigger] live@[b]).0 < tables@.len() && live@[b].1
                    < tables@[live@[b].0 as int].sources@.len(),
            total == counted(live_docs(tables@, live@, a as int) as int),
        decreases live.len() - a,
    {
        let (s, i): (usize, u32) = live[a];
        let source = &tables[s].sources[i as usize];
        if !source.failed {
            total = total.saturating_add(source.doc_count as usize);
        }
        a = a + 1;
    }
    total
}

/// Documents of the sources of one segment that are neither dead nor failed.
pub open spec fn segment_docs(tables: SegmentTables, dead: DeadSet, n: int) -> nat
    decreases n,
{
    if n <= 0 {
        0
    } else {
        segment_docs(tables, dead, n - 1) + if dead.sources@.contains((n - 1) as u32)
            || tables.sources@[n - 1].failed {
            0nat
        } else {
            tables.sources@[n - 1].doc_count as nat
        }
    }
}

/// How many documents a segment's live sources have.
pub fn segment_doc_count(tables: &SegmentTables, dead: &DeadSet) -> (total: usize)
    requires
        dead.ordered(),
        tables.sources@.len() <= u32::MAX,
    ensures
        total == counted(segment_docs(*tables, *dead, tables.sources@.len() as int) as int),
{
    let mut total: usize = 0;
    let mut i: usize = 0;
    while i < tables.sources.len()
        invariant
            i <= tables.sources.len() <= u32::MAX,
            dead.ordered(),
            total == counted(segment_docs(*tables, *dead, i as int) as int),
        decreases tables.sources.len() - i,
    {
        if !contains_id(dead.sources.as_slice(), i as u32) && !tables.sources[i].failed {
            total = total.saturating_add(tables.sources[i].doc_count as usize);
        }
        i = i + 1;
    }
    total
}

/// Documents of the live sources of the first `n` segments.
pub open spec fn docs_total(tables: Seq<SegmentTables>, dead: Seq<DeadSet>, n: int) -> nat
    decreases n,
{
    if n <= 0 {
        0
    } else {
        docs_total(tables, dead, n - 1) + segment_docs(
            tables[n - 1],
            dead[n - 1],
            tables[n - 1].sources@.len() as int,
        )
    }
}

/// How many documents the live sources of all segments have.
pub fn live_after_update(tables: &[SegmentTables], dead: &[DeadSet]) -> (total: usize)
    requires
        tables@.len() == dead@.len(),
        tables_small(tables@),
        forall|s: int| 0 <= s < dead@.len() ==> (#[trigger] dead@[s]).ordered(),
    ensures
        total == counted(docs_total(tables@, dead@, tables@.len() as int) as int),
{
    let mut total: usize = 0;
    let mut s: usize = 0;
    while s < tables.len()
        invariant
            s <= tables.len(),
            tables@.len() == dead@.len(),
            tables_small(tables@),
            forall|k: int| 0 <= k < dead@.len() ==> (#[trigger] dead@[k]).ordered(),
            total == counted(docs_total(tables@, dead@, s as int) as int),
        decreases tables.len() - s,
    {
        assert(tables@[s as int].sources@.len() <= u32::MAX);
        assert(dead@[s as int].ordered());
        total = total.saturating_add(segment_doc_count(&tables[s], &dead[s]));
        s = s + 1;
    }
    total
}

/// What an update has to do.
#[derive(Debug)]
pub struct UpdatePlan {
    pub to_add: Vec<ListedObject>,
    pub gone: Vec<(usize, u32)>,
    /// The dead set of each segment after the update.
    pub dead: Vec<DeadSet>,
    pub actions: Vec<SegmentAction>,
    /// Live documents before the update.
    pub total_docs: usize,
    /// There is nothing to do.
    pub up_to_date: bool,
}

/// What the run was asked for and found.
#[derive(Debug, Clone, Copy, PartialEq, Eq, Structural)]
pub struct UpdateFlags {
    pub purge_deleted: bool,
    pub forced: bool,
    pub root_missing: bool,
}

/// A segment is due to be rewritten even if nothing changes.
pub open spec fn repack_due(
    tables: Seq<SegmentTables>,
    dead: Seq<DeadSet>,
    doc_counts: Seq<u32>,
    purge: bool,
    n: int,
) -> bool {
    exists|s: int|
        0 <= s < n && (#[trigger] dead[s]).sources@.len() > 0 && (purge || mostly_dead(
            doc_counts[s],
            tables[s],
            dead[s],
        ))
}

/// Tables and dead sets as they are read: valid, and small enough for 32-bit ids.
pub open spec fn segments_valid(tables: Seq<SegmentTables>, dead: Seq<DeadSet>) -> bool {
    &&& tables.len() == dead.len()
    &&& tables_small(tables)
    &&& forall|s: int|
        0 <= s < tables.len() ==> crate::format::table_error(#[trigger] tables[s]) is None
            && dead[s].ordered() && crate::format::dead_error(dead[s], tables[s]) is None
}

/// A source of segment `s` dies.
pub open spec fn loses_sources(gone: Seq<(usize, u32)>, s: int) -> bool {
    exists|a: int| 0 <= a < gone.len() && (#[trigger] gone[a]).0 == s
}

/// Plan an update of the index to a listing.
#[verifier::rlimit(30)]
pub fn plan_update(
    listing: &[ListedObject],
    tables: &[SegmentTables],
    dead: &[DeadSet],
    doc_counts: &[u32],
    flags: UpdateFlags,
) -> (plan: Result<UpdatePlan, IndexError>)
    requires
        segments_valid(tables@, dead@),
        doc_counts@.len() == tables@.len(),
    ensures
        match plan {
            Ok(plan) => {
                &&& keys_distinct(listing@)
                &&& lists_additions(plan.to_add@, listing@, tables@, dead@)
                &&& lists_removals(plan.gone@, listing@, tables@, dead@)
                &&& plan.dead@.len() == tables@.len()
                &&& plan.actions@.len() == tables@.len()
                &&& forall|s: int|
                    0 <= s < tables@.len() ==> grown_dead(
                        #[trigger] plan.dead@[s],
                        dead@[s],
                        tables@[s],
                        plan.gone@,
                        s as usize,
                    )
                &&& forall|s: int|
                    0 <= s < tables@.len() ==> #[trigger] plan.actions@[s] == action_of(
                        doc_counts@[s],
                        tables@[s],
                        plan.dead@[s],
                        loses_sources(plan.gone@, s),
                        flags.purge_deleted,
                    )
                &&& exists|live: Seq<(usize, u32)>| #[trigger]
                    lists_live(live, tables@, dead@) && plan.total_docs == counted(
                        live_docs(tables@, live, live.len() as int) as int,
                    )
                &&& plan.up_to_date <==> plan.to_add@.len() == 0 && plan.gone@.len() == 0
                    && !flags.forced && tables@.len() <= SEGMENT_COUNT_TARGET && !repack_due(
                    tables@,
                    dead@,
                    doc_counts@,
                    flags.purge_deleted,
                    tables@.len() as int,
                ) && !flags.root_missing
            },
            Err(IndexError::DuplicateListing { at }) => at < listing@.len() && listed_before(
                listing@,
                at as int,
            ) && forall|k: int| 0 <= k < at ==> !#[trigger] listed_before(listing@, k),
            Err(_) => false,
        },
{
    match check_listing(listing) {
        Ok(_) => {},
        Err(e) => return Err(e),
    }
    proof {
        assert forall|s: int| 0 <= s < dead@.len() implies (#[trigger] dead@[s]).ordered() by {
            assert(crate::format::table_error(tables@[s]) is None);
        }
    }
    let live = live_sources(tables, dead);
    let to_add = additions(listing, tables, dead, live.as_slice());
    let gone = removals(listing, tables, dead, live.as_slice());
    proof {
        assert forall|a: int| 0 <= a < live@.len() implies (#[trigger] live@[a]).0 < tables@.len()
            && live@[a].1 < tables@[live@[a].0 as int].sources@.len() by {
            assert(is_live(tables@, dead@, live@[a].0 as int, live@[a].1 as int));
        }
    }
    let total_docs: usize = live_doc_count(tables, live.as_slice());
    let mut due: bool = false;
    let mut grown: Vec<DeadSet> = Vec::new();
    let mut actions: Vec<SegmentAction> = Vec::new();
    let mut s: usize = 0;
    while s < tables.len()
        invariant
            s <= tables.len(),
            tables.len() == tables@.len(),
            segments_valid(tables@, dead@),
            doc_counts@.len() == tables@.len(),
            lists_removals(gone@, listing@, tables@, dead@),
            due == repack_due(tables@, dead@, doc_counts@, flags.purge_deleted, s as int),
            grown@.len() == s,
            actions@.len() == s,
            forall|k: int|
                0 <= k < s ==> grown_dead(
                    #[trigger] grown@[k],
                    dead@[k],
                    tables@[k],
                    gone@,
                    k as usize,
                ),
            forall|k: int|
                0 <= k < s ==> #[trigger] actions@[k] == action_of(
                    doc_counts@[k],
                    tables@[k],
                    grown@[k],
                    loses_sources(gone@, k),
                    flags.purge_deleted,
                ),
        decreases tables.len() - s,
    {
        proof {
            assert(crate::format::table_error(tables@[s as int]) is None);
            assert(tables@[s as int].documents@.len() <= u32::MAX);
            crate::format::lemma_dead_bounds(dead@[s as int], tables@[s as int]);
            assert forall|i: u32| #[trigger] gone@.contains((s, i)) implies i
                < tables@[s as int].sources@.len() by {
                let a = choose|a: int| 0 <= a < gone@.len() && gone@[a] == (s, i);
                assert(is_live(tables@, dead@, gone@[a].0 as int, gone@[a].1 as int));
            }
        }
        let was_due: bool = dead[s].sources.len() > 0 && (flags.purge_deleted || should_repack(
            doc_counts[s],
            &tables[s],
            &dead[s],
        ));
        proof {
            let now = repack_due(tables@, dead@, doc_counts@, flags.purge_deleted, s + 1);
            if due {
                let k = choose|k: int|
                    0 <= k < s && (#[trigger] dead@[k]).sources@.len() > 0 && (flags.purge_deleted
                        || mostly_dead(doc_counts@[k], tables@[k], dead@[k]));
                assert(dead@[k].sources@.len() > 0);
                assert(now);
            }
            if was_due {
                assert(dead@[s as int].sources@.len() > 0);
                assert(now);
            }
        }
        due = due || was_due;
        let next = with_dead(&dead[s], &tables[s], gone.as_slice(), s);
        proof {
            grown_dead_stays_valid(next, dead@[s as int], tables@[s as int], gone@, s);
            crate::format::lemma_dead_bounds(next, tables@[s as int]);
        }
        let mut changed: bool = false;
        let mut a: usize = 0;
        while a < gone.len()
            invariant
                a <= gone.len(),
                changed <==> exists|b: int| 0 <= b < a && (#[trigger] gone@[b]).0 == s,
            decreases gone.len() - a,
        {
            if gone[a].0 == s {
                changed = true;
                assert(gone@[a as int].0 == s);
            }
            a = a + 1;
        }
        assert(changed == loses_sources(gone@, s as int));
        let action: SegmentAction = if next.sources.len() == tables[s].sources.len() {
            SegmentAction::Drop
        } else if next.sources.len() == 0 {
            SegmentAction::Keep
        } else if flags.purge_deleted || should_repack(doc_counts[s], &tables[s], &next) {
            SegmentAction::Repack
        } else if changed {
            SegmentAction::Record
        } else {
            SegmentAction::Keep
        };
        grown.push(next);
        actions.push(action);
        s = s + 1;
    }
    let up_to_date: bool = to_add.len() == 0 && gone.len() == 0 && !flags.forced && tables.len()
        <= SEGMENT_COUNT_TARGET && !due && !flags.root_missing;
    assert(lists_live(live@, tables@, dead@));
    Ok(UpdatePlan { to_add, gone, dead: grown, actions, total_docs, up_to_date })
}

/// After the segments were compacted there is still nothing to write.
pub fn root_unchanged(plan: &UpdatePlan, flags: UpdateFlags, compacted: bool) -> (unchanged: bool)
    ensures
        unchanged == (plan.to_add@.len() == 0 && plan.gone@.len() == 0 && !flags.forced
            && !flags.root_missing && !compacted),
{
    plan.to_add.len() == 0 && plan.gone.len() == 0 && !flags.forced && !flags.root_missing
        && !compacted
}

/// The report of a run.
pub fn update_report(
    plan: &UpdatePlan,
    flags: UpdateFlags,
    compacted: bool,
    segments: usize,
    total_docs: usize,
) -> (report: UpdateReport)
    ensures
        ({
            let unchanged = plan.to_add@.len() == 0 && plan.gone@.len() == 0 && !flags.forced
                && !flags.root_missing && !compacted;
            report == if unchanged {
                UpdateReport {
                    added: 0,
                    removed: 0,
                    total_docs: plan.total_docs,
                    segments,
                    compacted: false,
                    up_to_date: true,
                }
            } else {
                UpdateReport {
                    added: plan.to_add@.len() as usize,
                    removed: plan.gone@.len() as usize,
                    total_docs,
                    segments,
                    compacted,
                    up_to_date: false,
                }
            }
        }),
{
    if root_unchanged(plan, flags, compacted) {
        UpdateReport {
            added: 0,
            removed: 0,
            total_docs: plan.total_docs,
            segments,
            compacted: false,
            up_to_date: true,
        }
    } else {
        UpdateReport {
            added: plan.to_add.len(),
            removed: plan.gone.len(),
            total_docs,
            segments,
            compacted,
            up_to_date: false,
        }
    }
}

/// The root of an index as it was found.
#[derive(Debug)]
pub enum RootState {
    Loaded(SegmentList),
    Absent,
    /// There, but not readable: the index has to be built anew.
    Unreadable,
}

/// What is said where an index of one source is to be updated from another.
pub fn mismatch_message(built: &SourceIdentity, source: &SourceIdentity) -> (text: String)
    ensures
        text@ == "index was built for "@ + crate::source::description(built.identity()) + ", not "@
            + crate::source::description(source.identity())
            + "; use --rebuild to replace it"@,
{
    let head = joined("index was built for ", built.describe().as_str());
    let both = joined(joined(head.as_str(), ", not ").as_str(), source.describe().as_str());
    joined(both.as_str(), "; use --rebuild to replace it")
}

/// What becomes of the segments of the root.
#[derive(Debug, Clone, Copy, PartialEq, Eq, Structural)]
pub struct Adoption {
    /// The segments stay and are updated.
    pub keep: bool,
    /// The segments are replaced, and can be deleted once the new root is in place.
    pub replace: bool,
    /// A new root is written even if nothing changed.
    pub forced: bool,
}

/// The strategy of a run, if it need not be detected: the one asked for, or that of an index that
/// holds something and is not rebuilt.
pub fn chosen_strategy(
    requested: Option<Strategy>,
    root: &RootState,
    rebuild: bool,
) -> (strategy: Option<Strategy>)
    ensures
        strategy == match requested {
            Some(s) => Some(s),
            None => match *root {
                RootState::Loaded(list) => if !rebuild && list.segments@.len() > 0 {
                    Some(list.strategy)
                } else {
                    None
                },
                _ => None,
            },
        },
{
    match requested {
        Some(strategy) => Some(strategy),
        None => match root {
            RootState::Loaded(list) => if !rebuild && list.segments.len() > 0 {
                Some(list.strategy)
            } else {
                None
            },
            _ => None,
        },
    }
}

/// What becomes of the segments of the root.
pub fn adopt_root(
    root: &RootState,
    source: &SourceIdentity,
    strategy: Strategy,
    rebuild: bool,
) -> (adoption: Result<Adoption, IndexError>)
    ensures
        adoption == match *root {
            RootState::Loaded(list) => if rebuild {
                Ok(Adoption { keep: false, replace: true, forced: true })
            } else if list.source.identity() != source.identity() {
                Err(IndexError::SourceMismatch)
            } else if list.strategy == strategy {
                Ok(Adoption { keep: true, replace: false, forced: false })
            } else {
                Ok(Adoption { keep: false, replace: true, forced: true })
            },
            RootState::Absent => Ok(Adoption { keep: false, replace: false, forced: rebuild }),
            RootState::Unreadable => Ok(Adoption { keep: false, replace: false, forced: true }),
        },
{
    match root {
        RootState::Loaded(list) => {
            if rebuild {
                return Ok(Adoption { keep: false, replace: true, forced: true });
            }
            if !list.source.same(source) {
                return Err(IndexError::SourceMismatch);
            }
            if list.strategy == strategy {
                Ok(Adoption { keep: true, replace: false, forced: false })
            } else {
                Ok(Adoption { keep: false, replace: true, forced: true })
            }
        },
        RootState::Absent => Ok(Adoption { keep: false, replace: false, forced: rebuild }),
        RootState::Unreadable => Ok(Adoption { keep: false, replace: false, forced: true }),
    }
}

/// The entries stand for the same object in the same version, tried again or not alike.
pub open spec fn same_source(
    a: crate::format::SourceEntry,
    b: crate::format::SourceEntry,
) -> bool {
    a.key@ == b.key@ && a.version@ == b.version@ && a.retry == b.retry
}

/// The entry is that of an added object.
pub open spec fn added_source(entry: crate::format::SourceEntry, object: ListedObject) -> bool {
    entry.key@ == object.0@ && entry.version@ == object.1@
}

/// A live source of the updated index is one that survived the update or that the update added.
pub open spec fn comes_from_update(
    entry: crate::format::SourceEntry,
    tables: Seq<SegmentTables>,
    dead: Seq<DeadSet>,
    gone: Seq<(usize, u32)>,
    to_add: Seq<ListedObject>,
) -> bool {
    ||| exists|s: int, i: int| #[trigger]
        survives(gone, tables, dead, s, i) && same_source(entry, tables[s].sources@[i])
    ||| exists|a: int| 0 <= a < to_add.len() && added_source(entry, #[trigger] to_add[a])
}

/// A live source stands for the same object as the entry.
pub open spec fn holds_source(
    tables: Seq<SegmentTables>,
    dead: Seq<DeadSet>,
    entry: crate::format::SourceEntry,
) -> bool {
    exists|s: int, i: int| #[trigger]
        is_live(tables, dead, s, i) && same_source(tables[s].sources@[i], entry)
}

/// A live source is that of an added object.
pub open spec fn holds_added(
    tables: Seq<SegmentTables>,
    dead: Seq<DeadSet>,
    object: ListedObject,
) -> bool {
    exists|s: int, i: int| #[trigger]
        is_live(tables, dead, s, i) && added_source(tables[s].sources@[i], object)
}

/// The segments hold what an update of others leaves and adds, and nothing else.
pub open spec fn is_updated(
    after: Seq<SegmentTables>,
    dead_after: Seq<DeadSet>,
    tables: Seq<SegmentTables>,
    dead: Seq<DeadSet>,
    gone: Seq<(usize, u32)>,
    to_add: Seq<ListedObject>,
) -> bool {
    &&& forall|s: int, i: int| #[trigger]
        is_live(after, dead_after, s, i) ==> comes_from_update(
            after[s].sources@[i],
            tables,
            dead,
            gone,
            to_add,
        )
    &&& forall|s: int, i: int| #[trigger]
        survives(gone, tables, dead, s, i) ==> holds_source(
            after,
            dead_after,
            tables[s].sources@[i],
        )
    &&& forall|a: int|
        0 <= a < to_add.len() ==> holds_added(after, dead_after, #[trigger] to_add[a])
}

/// A segment that an update left as it is, or with more dead, is not due to be rewritten.
pub open spec fn kept_segment(
    table: SegmentTables,
    dead: DeadSet,
    doc_count: u32,
    changed: bool,
) -> bool {
    action_of(doc_count, table, dead, changed, false) is Keep || action_of(
        doc_count,
        table,
        dead,
        changed,
        false,
    ) is Record
}

/// An update settles what it was asked for: run again with the same listing, it adds nothing and
/// removes nothing, and where the root is there and names few enough segments, it leaves the index
/// as it is. Objects that are to be tried again are left out, for these it tries again.
pub proof fn repeated_updates_change_nothing(
    listing: Seq<ListedObject>,
    tables: Seq<SegmentTables>,
    dead: Seq<DeadSet>,
    first: UpdatePlan,
    after: Seq<SegmentTables>,
    dead_after: Seq<DeadSet>,
    doc_counts: Seq<u32>,
    second: UpdatePlan,
    flags: UpdateFlags,
)
    requires
        tables_small(tables),
        tables.len() <= usize::MAX,
        lists_additions(first.to_add@, listing, tables, dead),
        lists_removals(first.gone@, listing, tables, dead),
        is_updated(after, dead_after, tables, dead, first.gone@, first.to_add@),
        forall|s: int, i: int| #[trigger]
            is_live(after, dead_after, s, i) ==> !after[s].sources@[i].retry,
        after.len() == dead_after.len(),
        forall|s: int|
            0 <= s < after.len() ==> dead_after[s].sources@.len() == 0 || exists|changed: bool|
                #[trigger] kept_segment(#[trigger] after[s], dead_after[s], doc_counts[s], changed),
        lists_additions(second.to_add@, listing, after, dead_after),
        lists_removals(second.gone@, listing, after, dead_after),
        second.up_to_date <==> second.to_add@.len() == 0 && second.gone@.len() == 0
            && !flags.forced && after.len() <= SEGMENT_COUNT_TARGET && !repack_due(
            after,
            dead_after,
            doc_counts,
            flags.purge_deleted,
            after.len() as int,
        ) && !flags.root_missing,
    ensures
        second.to_add@.len() == 0,
        second.gone@.len() == 0,
        !flags.forced && !flags.purge_deleted && !flags.root_missing && after.len()
            <= SEGMENT_COUNT_TARGET ==> second.up_to_date,
{
    let gone = first.gone@;
    let to_add = first.to_add@;
    if second.gone@.len() > 0 {
        let s = second.gone@[0].0 as int;
        let i = second.gone@[0].1 as int;
        assert(is_live(after, dead_after, s, i));
        let entry = after[s].sources@[i];
        assert(comes_from_update(entry, tables, dead, gone, to_add));
        if exists|s: int, i: int| #[trigger]
            survives(gone, tables, dead, s, i) && same_source(entry, tables[s].sources@[i]) {
            let (s1, i1) = choose|s1: int, i1: int| #[trigger]
                survives(gone, tables, dead, s1, i1) && same_source(entry, tables[s1].sources@[i1]);
            updates_match_listings(listing, to_add, gone, tables, dead, 0, s1, i1);
            let j = choose|j: int|
                0 <= j < listing.len() && settled_with(
                    object_view(#[trigger] listing[j]),
                    tables[s1].sources@[i1],
                );
            assert(settled_with(object_view(listing[j]), entry));
        } else {
            let a = choose|a: int| 0 <= a < to_add.len() && added_source(entry, #[trigger] to_add[a]);
            let v = object_view(to_add[a]);
            assert(object_views(to_add)[a] == v);
            assert(object_views(to_add).contains(v));
            assert(object_views(listing).contains(v));
            let j = choose|j: int| 0 <= j < object_views(listing).len() && object_views(listing)[j]
                == v;
            assert(object_view(listing[j]) == v);
            assert(settled_with(object_view(listing[j]), entry));
        }
        assert(still_listed(listing, entry));
        assert(false);
    }
    if second.to_add@.len() > 0 {
        let v = object_view(second.to_add@[0]);
        assert(object_views(second.to_add@)[0] == v);
        assert(object_views(second.to_add@).contains(v));
        assert(object_views(listing).contains(v) && !settled(after, dead_after, v));
        if settled(tables, dead, v) {
            let (s, i) = choose|s: int, i: int| #[trigger]
                is_live(tables, dead, s, i) && settled_with(v, tables[s].sources@[i]);
            let j = choose|j: int| 0 <= j < object_views(listing).len() && object_views(listing)[j]
                == v;
            assert(object_view(listing[j]) == v);
            assert(still_listed(listing, tables[s].sources@[i]));
            if gone.contains((s as usize, i as u32)) {
                let a = choose|a: int| 0 <= a < gone.len() && gone[a] == (s as usize, i as u32);
                assert(tables[s].sources@.len() <= u32::MAX);
                assert(!still_listed(
                    listing,
                    tables[gone[a].0 as int].sources@[gone[a].1 as int],
                ));
            }
            assert(survives(gone, tables, dead, s, i));
            let (s2, i2) = choose|s2: int, i2: int| #[trigger]
                is_live(after, dead_after, s2, i2) && same_source(
                    after[s2].sources@[i2],
                    tables[s].sources@[i],
                );
            assert(settled_with(v, after[s2].sources@[i2]));
        } else {
            assert(object_views(to_add).contains(v));
            let a = choose|a: int| 0 <= a < object_views(to_add).len() && object_views(to_add)[a]
                == v;
            assert(object_view(to_add[a]) == v);
            let (s2, i2) = choose|s2: int, i2: int| #[trigger]
                is_live(after, dead_after, s2, i2) && added_source(
                    after[s2].sources@[i2],
                    to_add[a],
                );
            assert(settled_with(v, after[s2].sources@[i2]));
        }
        assert(settled(after, dead_after, v));
        assert(false);
    }
    if !flags.purge_deleted && repack_due(
        after,
        dead_after,
        doc_counts,
        false,
        after.len() as int,
    ) {
        let s = choose|s: int|
            0 <= s < after.len() && (#[trigger] dead_after[s]).sources@.len() > 0 && mostly_dead(
                doc_counts[s],
                after[s],
                dead_after[s],
            );
        let changed = choose|changed: bool| #[trigger]
            kept_segment(after[s], dead_after[s], doc_counts[s], changed);
        assert(kept_segment(after[s], dead_after[s], doc_counts[s], changed));
    }
}

/// Of several copies of a source that are not dead, the newest is the live one: the one in the latest
/// segment, and the last there.
pub proof fn newest_copies_are_live(
    tables: Seq<SegmentTables>,
    dead: Seq<DeadSet>,
    s: int,
    i: int,
    s2: int,
    i2: int,
)
    requires
        is_live(tables, dead, s, i),
        0 <= s2 < tables.len(),
        0 <= i2 < tables[s2].sources@.len(),
        !dead[s2].sources@.contains(i2 as u32),
        tables[s2].sources@[i2].key@ == tables[s].sources@[i].key@,
    ensures
        0 <= s < tables.len() && 0 <= i < tables[s].sources@.len(),
        !dead[s].sources@.contains(i as u32),
        s2 < s || s2 == s && i2 <= i,
{
    assert(not_dead(tables, dead, s2, i2));
}

/// A source that is not dead and the last of its key is live.
pub proof fn last_copies_are_live(tables: Seq<SegmentTables>, dead: Seq<DeadSet>, s: int, i: int)
    requires
        0 <= s < tables.len(),
        0 <= i < tables[s].sources@.len(),
        !dead[s].sources@.contains(i as u32),
        forall|s2: int, i2: int|
            #![trigger tables[s2].sources@[i2]]
            0 <= s2 < tables.len() && 0 <= i2 < tables[s2].sources@.len() && (s < s2 || s == s2 && i
                < i2) && tables[s2].sources@[i2].key@ == tables[s].sources@[i].key@
                ==> dead[s2].sources@.contains(i2 as u32),
    ensures
        is_live(tables, dead, s, i),
{
    if superseded(tables, dead, s, i) {
        let (s2, i2) = choose|s2: int, i2: int| #[trigger]
            not_dead(tables, dead, s2, i2) && pair_before((s, i), (s2, i2))
                && tables[s2].sources@[i2].key@ == tables[s].sources@[i].key@;
        assert(tables[s2].sources@[i2].key@ == tables[s].sources@[i].key@);
    }
}

/// A live source with the key and the version of a listed object, not to be tried again.
pub open spec fn held_live(
    tables: Seq<SegmentTables>,
    dead: Seq<DeadSet>,
    object: ObjectView,
    s: int,
    i: int,
) -> bool {
    &&& is_live(tables, dead, s, i)
    &&& tables[s].sources@[i].key@ == object.0
    &&& tables[s].sources@[i].version@ == object.1
    &&& !tables[s].sources@[i].retry
}

/// What an update adds is what the listing has and the index lacks: new objects, objects whose version
/// changed, and those that are to be tried again. What it removes is what the listing no longer has in
/// the version that the index holds.
pub proof fn updates_follow_versions(
    listing: Seq<ListedObject>,
    to_add: Seq<ListedObject>,
    gone: Seq<(usize, u32)>,
    tables: Seq<SegmentTables>,
    dead: Seq<DeadSet>,
    object: ObjectView,
    s: int,
    i: int,
)
    requires
        tables_small(tables),
        tables.len() <= usize::MAX,
        lists_additions(to_add, listing, tables, dead),
        lists_removals(gone, listing, tables, dead),
    ensures
        object_views(to_add).contains(object) <==> object_views(listing).contains(object) && !exists|
            s2: int,
            i2: int,
        | #[trigger] held_live(tables, dead, object, s2, i2),
        is_live(tables, dead, s, i) ==> (gone.contains((s as usize, i as u32)) <==> !exists|j: int|
            0 <= j < listing.len() && #[trigger] held_live(
                tables,
                dead,
                object_view(listing[j]),
                s,
                i,
            )),
{
    if settled(tables, dead, object) {
        let (s2, i2) = choose|s2: int, i2: int| #[trigger]
            is_live(tables, dead, s2, i2) && settled_with(object, tables[s2].sources@[i2]);
        assert(held_live(tables, dead, object, s2, i2));
    }
    if exists|s2: int, i2: int| #[trigger] held_live(tables, dead, object, s2, i2) {
        let (s2, i2) = choose|s2: int, i2: int| #[trigger] held_live(tables, dead, object, s2, i2);
        assert(is_live(tables, dead, s2, i2) && settled_with(object, tables[s2].sources@[i2]));
    }
    if is_live(tables, dead, s, i) {
        let source = tables[s].sources@[i];
        if still_listed(listing, source) {
            let j = choose|j: int|
                0 <= j < listing.len() && settled_with(object_view(#[trigger] listing[j]), source);
            assert(held_live(tables, dead, object_view(listing[j]), s, i));
        }
        if exists|j: int|
            0 <= j < listing.len() && #[trigger] held_live(
                tables,
                dead,
                object_view(listing[j]),
                s,
                i,
            ) {
            let j = choose|j: int|
                0 <= j < listing.len() && #[trigger] held_live(
                    tables,
                    dead,
                    object_view(listing[j]),
                    s,
                    i,
                );
            assert(settled_with(object_view(listing[j]), source));
        }
        if gone.contains((s as usize, i as u32)) {
            let a = choose|a: int| 0 <= a < gone.len() && gone[a] == (s as usize, i as u32);
            assert(gone[a].0 == s && gone[a].1 == i);
        }
    }
}

/// A segment is packed anew once a quarter of its documents, or of its bytes, is dead, and not before.
pub proof fn segments_are_repacked_once_a_quarter_is_dead(
    doc_count: u32,
    tables: SegmentTables,
    dead: DeadSet,
)
    requires
        crate::format::doc_bytes_before(tables.documents@, tables.documents@.len()) <= u64::MAX,
        bytes_of(tables, dead.documents@, dead.documents@.len() as int) * 4 <= u64::MAX,
    ensures
        ({
            let total = crate::format::doc_bytes_before(
                tables.documents@,
                tables.documents@.len(),
            );
            let gone = bytes_of(tables, dead.documents@, dead.documents@.len() as int);
            mostly_dead(doc_count, tables, dead) <==> dead.documents@.len() > 0 && (4
                * dead.documents@.len() >= doc_count || total > 0 && 4 * gone >= total)
        }),
{
}

/// What is done with a segment fits what is left of it: one with nothing left is dropped, one with
/// nothing dead is kept as it is, one that loses sources never is, and where deleted documents are to be
/// purged, nothing dead stays.
pub proof fn actions_fit_what_is_left(
    doc_count: u32,
    tables: SegmentTables,
    dead: DeadSet,
    changed: bool,
    purge: bool,
)
    ensures
        ({
            let action = action_of(doc_count, tables, dead, changed, purge);
            let none_left = dead.sources@.len() == tables.sources@.len();
            let some_dead = dead.sources@.len() > 0;
            &&& action is Drop <==> none_left
            &&& !none_left && !some_dead ==> action is Keep
            &&& some_dead && changed ==> !(action is Keep)
            &&& some_dead && purge ==> action is Drop || action is Repack
            &&& action is Repack ==> some_dead && (purge || mostly_dead(doc_count, tables, dead))
            &&& some_dead && mostly_dead(doc_count, tables, dead) ==> action is Drop
                || action is Repack
            &&& action is Record ==> changed
        }),
{
}

/// Documents are counted source by source: those of every live source, but none for one that failed.
pub proof fn live_documents_are_counted_by_source(
    tables: Seq<SegmentTables>,
    dead: Seq<DeadSet>,
    live: Seq<(usize, u32)>,
    s: int,
    n: int,
)
    requires
        0 <= n,
        0 <= s,
    ensures
        live_docs(tables, live, 0) == 0,
        ({
            let source = tables[live[n].0 as int].sources@[live[n].1 as int];
            live_docs(tables, live, n + 1) - live_docs(tables, live, n) == if source.failed {
                0
            } else {
                source.doc_count as int
            }
        }),
        segment_docs(tables[s], dead[s], 0) == 0,
        ({
            let source = tables[s].sources@[n];
            segment_docs(tables[s], dead[s], n + 1) - segment_docs(tables[s], dead[s], n)
                == if source.failed || dead[s].sources@.contains(n as u32) {
                0
            } else {
                source.doc_count as int
            }
        }),
        docs_total(tables, dead, 0) == 0,
        docs_total(tables, dead, s + 1) - docs_total(tables, dead, s) == segment_docs(
            tables[s],
            dead[s],
            tables[s].sources@.len() as int,
        ),
{
}

} // verus!
