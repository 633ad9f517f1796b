//! Posting lists out of single entries: of the blocks of documents, or of segments that are
//! merged.

use vstd::prelude::*;

use crate::candidate::CANDIDATE_BLOCK_BYTES;
use crate::compact::live_entry;
use crate::error::IndexError;
use crate::ids::sort_dedup;
use crate::postings::block_trigrams;
use crate::postings::GramList;
use crate::query::Strategy;
use crate::text::bytes_eq;
use vstd::slice::slice_to_vec;

verus! {

/// A gram and some of the ids that have it.
pub type PostingEntry = (Vec<u8>, Vec<u32>);

pub open spec fn posting_views(entries: Seq<PostingEntry>) -> Seq<(Seq<u8>, Seq<u32>)> {
    entries.map_values(|entry: PostingEntry| (entry.0@, entry.1@))
}

/// One of the first `n` entries has the gram at the id.
pub open spec fn entry_lists(
    entries: Seq<(Seq<u8>, Seq<u32>)>,
    n: int,
    gram: Seq<u8>,
    id: u32,
) -> bool {
    exists|e: int| 0 <= e < n && (#[trigger] entries[e]).0 == gram && entries[e].1.contains(id)
}

/// Every gram has one list, the lists are in the order of the grams, and every list has ids, in
/// ascending order.
pub open spec fn lists_ordered(lists: Seq<GramList>) -> bool {
    &&& forall|i: int, j: int|
        0 <= i < j < lists.len() ==> crate::text::bytes_before(
            (#[trigger] lists[i]).gram@,
            (#[trigger] lists[j]).gram@,
        )
    &&& forall|k: int|
        0 <= k < lists.len() ==> (#[trigger] lists[k]).ids@.len() > 0 && crate::ids::ascending(
            lists[k].ids@,
        )
}

/// Sorts with `slice::sort_unstable`, which orders tuples by their fields in turn, vectors
/// lexicographically, and neither adds nor drops any. Only the order of the grams is claimed.
#[verifier::external_body]
fn sort_entries(entries: &mut Vec<PostingEntry>)
    ensures
        forall|i: int, j: int|
            0 <= i < j < final(entries)@.len() ==> !crate::text::bytes_before(
                (#[trigger] final(entries)@[j]).0@,
                (#[trigger] final(entries)@[i]).0@,
            ),
        posting_views(final(entries)@).to_multiset() == posting_views(
            old(entries)@,
        ).to_multiset(),
{
    entries.sort_unstable();
}

proof fn lemma_same_entries(
    a: Seq<(Seq<u8>, Seq<u32>)>,
    b: Seq<(Seq<u8>, Seq<u32>)>,
    gram: Seq<u8>,
    id: u32,
)
    requires
        a.to_multiset() == b.to_multiset(),
        entry_lists(a, a.len() as int, gram, id),
    ensures
        entry_lists(b, b.len() as int, gram, id),
{
    broadcast use vstd::seq_lib::group_to_multiset_ensures;

    let e = choose|e: int|
        0 <= e < a.len() && (#[trigger] a[e]).0 == gram && a[e].1.contains(id);
    assert(a.contains(a[e]));
    assert(b.to_multiset().count(a[e]) > 0);
    let f = choose|f: int| 0 <= f < b.len() && b[f] == a[e];
    assert(b[f].0 == gram);
}

/// Join entries into lists: every gram with all ids that any of its entries has.
pub fn join_entries(entries: Vec<PostingEntry>) -> (lists: Vec<GramList>)
    ensures
        lists_ordered(lists@),
        forall|gram: Seq<u8>, id: u32| #[trigger]
            crate::postings::listed(lists@, id, gram) <==> entry_lists(
                posting_views(entries@),
                entries@.len() as int,
                gram,
                id,
            ),
{
    let ghost given = posting_views(entries@);
    let mut sorted = entries;
    sort_entries(&mut sorted);
    let ghost views = posting_views(sorted@);
    let mut lists: Vec<GramList> = Vec::new();
    let mut i: usize = 0;
    while i < sorted.len()
        invariant
            i <= sorted.len(),
            views == posting_views(sorted@),
            forall|a: int, b: int|
                0 <= a < b < sorted@.len() ==> !crate::text::bytes_before(
                    (#[trigger] sorted@[b]).0@,
                    (#[trigger] sorted@[a]).0@,
                ),
            i < sorted@.len() ==> forall|e: int|
                0 <= e < i ==> crate::text::bytes_before(
                    (#[trigger] sorted@[e]).0@,
                    sorted@[i as int].0@,
                ),
            forall|k: int|
                0 <= k < lists@.len() ==> exists|e: int|
                    0 <= e < i && (#[trigger] sorted@[e]).0@ == (#[trigger] lists@[k]).gram@,
            lists_ordered(lists@),
            forall|gram: Seq<u8>, id: u32| #[trigger]
                crate::postings::listed(lists@, id, gram) <==> entry_lists(
                    views,
                    i as int,
                    gram,
                    id,
                ),
        decreases sorted.len() - i,
    {
        let ghost key = sorted@[i as int].0@;
        let mut ids: Vec<u32> = Vec::new();
        let mut j: usize = i;
        while j < sorted.len() && bytes_eq(sorted[j].0.as_slice(), sorted[i].0.as_slice())
            invariant
                i <= j <= sorted.len(),
                i < sorted.len(),
                key == sorted@[i as int].0@,
                views == posting_views(sorted@),
                forall|e: int| i <= e < j ==> (#[trigger] sorted@[e]).0@ == key,
                forall|id: u32| #[trigger]
                    ids@.contains(id) <==> exists|e: int|
                        i <= e < j && (#[trigger] views[e]).1.contains(id),
            decreases sorted.len() - j,
        {
            let ghost before = ids@;
            let ghost more = sorted@[j as int].1@;
            ids.extend_from_slice(sorted[j].1.as_slice());
            proof {
                assert(views[j as int].1 == more);
                assert(ids@ =~= before + more);
                assert forall|id: u32| #[trigger] ids@.contains(id) <==> exists|e: int|
                    i <= e < j + 1 && (#[trigger] views[e]).1.contains(id) by {
                    lemma_sum_contains(before, more, id);
                    if before.contains(id) {
                        let e = choose|e: int| i <= e < j && (#[trigger] views[e]).1.contains(id);
                        assert(views[e].1.contains(id));
                    }
                    if exists|e: int| i <= e < j + 1 && (#[trigger] views[e]).1.contains(id) {
                        let e = choose|e: int|
                            i <= e < j + 1 && (#[trigger] views[e]).1.contains(id);
                        if e < j {
                            assert(before.contains(id));
                        }
                    }
                }
            }
            j = j + 1;
        }
        let ghost gathered = ids@;
        let ids = sort_dedup(ids);
        let ghost held = lists@;
        let ghost joined = ids@;
        if ids.len() > 0 {
            let gram: Vec<u8> = slice_to_vec(sorted[i].0.as_slice());
            lists.push(GramList { gram, ids });
        }
        proof {
            if joined.len() > 0 {
                assert(lists@.drop_last() =~= held);
            }
            assert forall|id: u32| joined.contains(id) <==> #[trigger] gathered.contains(id) by {
                assert(crate::ids::id_set(joined).contains(id) <==> crate::ids::id_set(
                    gathered,
                ).contains(id));
            }
            lemma_group_joined(views, held, lists@, i as int, j as int, key, joined, gathered);
            assert forall|k: int| 0 <= k < lists@.len() implies exists|e: int|
                0 <= e < j && (#[trigger] sorted@[e]).0@ == (#[trigger] lists@[k]).gram@ by {
                if k < held.len() {
                    assert(lists@[k] == held[k]);
                    let e = choose|e: int|
                        0 <= e < i && (#[trigger] sorted@[e]).0@ == held[k].gram@;
                    assert(sorted@[e].0@ == lists@[k].gram@);
                } else {
                    assert(sorted@[i as int].0@ == lists@[k].gram@);
                }
            }
            assert forall|a: int, b: int| 0 <= a < b < lists@.len() implies crate::text::bytes_before(
                (#[trigger] lists@[a]).gram@,
                (#[trigger] lists@[b]).gram@,
            ) by {
                assert(lists@[a] == held[a]);
                if b < held.len() {
                    assert(lists@[b] == held[b]);
                } else {
                    let e = choose|e: int|
                        0 <= e < i && (#[trigger] sorted@[e]).0@ == held[a].gram@;
                    assert(sorted@[e].0@ == held[a].gram@);
                }
            }
            if j < sorted@.len() {
                let next = sorted@[j as int].0@;
                assert(!crate::text::bytes_before(next, key));
                crate::text::lemma_before_total(key, next);
                assert forall|e: int| 0 <= e < j implies crate::text::bytes_before(
                    (#[trigger] sorted@[e]).0@,
                    next,
                ) by {
                    if e < i {
                        crate::text::lemma_before_transitive(sorted@[e].0@, key, next);
                    }
                }
            }
        }
        i = j;
    }
    proof {
        assert forall|gram: Seq<u8>, id: u32| #[trigger]
            crate::postings::listed(lists@, id, gram) <==> entry_lists(
            given,
            given.len() as int,
            gram,
            id,
        ) by {
            if entry_lists(views, views.len() as int, gram, id) {
                lemma_same_entries(views, given, gram, id);
            }
            if entry_lists(given, given.len() as int, gram, id) {
                lemma_same_entries(given, views, gram, id);
            }
        }
    }
    lists
}

proof fn lemma_sum_contains(a: Seq<u32>, b: Seq<u32>, id: u32)
    ensures
        (a + b).contains(id) <==> a.contains(id) || b.contains(id),
{
    if a.contains(id) {
        let k = choose|k: int| 0 <= k < a.len() && a[k] == id;
        assert((a + b)[k] == id);
    }
    if b.contains(id) {
        let k = choose|k: int| 0 <= k < b.len() && b[k] == id;
        assert((a + b)[a.len() + k] == id);
    }
    if (a + b).contains(id) {
        let k = choose|k: int| 0 <= k < (a + b).len() && (a + b)[k] == id;
        if k < a.len() {
            assert(a[k] == id);
        } else {
            assert(b[k - a.len()] == id);
        }
    }
}

/// Joining the entries `i..j`, which are those of one gram.
proof fn lemma_group_joined(
    views: Seq<(Seq<u8>, Seq<u32>)>,
    before: Seq<GramList>,
    after: Seq<GramList>,
    i: int,
    j: int,
    key: Seq<u8>,
    ids: Seq<u32>,
    gathered: Seq<u32>,
)
    requires
        0 <= i <= j <= views.len(),
        forall|e: int| i <= e < j ==> (#[trigger] views[e]).0 == key,
        forall|id: u32| ids.contains(id) <==> #[trigger] gathered.contains(id),
        forall|id: u32| #[trigger]
            gathered.contains(id) <==> exists|e: int|
                i <= e < j && (#[trigger] views[e]).1.contains(id),
        if ids.len() > 0 {
            after.len() == before.len() + 1 && after.drop_last() == before
                && after.last().gram@ == key && after.last().ids@ == ids
        } else {
            after == before
        },
        forall|gram: Seq<u8>, id: u32| #[trigger]
            crate::postings::listed(before, id, gram) <==> entry_lists(views, i, gram, id),
    ensures
        forall|gram: Seq<u8>, id: u32| #[trigger]
            crate::postings::listed(after, id, gram) <==> entry_lists(views, j, gram, id),
{
    assert forall|gram: Seq<u8>, id: u32| #[trigger]
        crate::postings::listed(after, id, gram) <==> entry_lists(views, j, gram, id) by {
        if crate::postings::listed(after, id, gram) {
            let k = choose|k: int|
                0 <= k < after.len() && (#[trigger] after[k]).gram@ == gram
                    && after[k].ids@.contains(id);
            if k < before.len() {
                assert(before[k] == after[k]);
                assert(crate::postings::listed(before, id, gram));
                let e = choose|e: int|
                    0 <= e < i && (#[trigger] views[e]).0 == gram && views[e].1.contains(id);
                assert(views[e].0 == gram);
            } else {
                assert(gathered.contains(id));
                let e = choose|e: int| i <= e < j && (#[trigger] views[e]).1.contains(id);
                assert(views[e].0 == gram);
            }
        }
        if entry_lists(views, j, gram, id) {
            let e = choose|e: int|
                0 <= e < j && (#[trigger] views[e]).0 == gram && views[e].1.contains(id);
            if e < i {
                assert(entry_lists(views, i, gram, id));
                assert(crate::postings::listed(before, id, gram));
                let k = choose|k: int|
                    0 <= k < before.len() && (#[trigger] before[k]).gram@ == gram
                        && before[k].ids@.contains(id);
                assert(after[k] == before[k]);
            } else {
                assert(views[e].1.contains(id));
                assert(gathered.contains(id));
                assert(ids.contains(id));
                assert(after.last().ids@.contains(id));
                assert(after[after.len() - 1].gram@ == gram);
            }
        }
    }
}

/// A term of a segment that is merged: its gram, its packed value and, where blocks have no fixed
/// length, that of its block.
#[derive(Debug)]
pub struct VictimTerm {
    pub gram: Vec<u8>,
    pub packed: u64,
    pub len: Option<u64>,
}

/// The terms and postings of a segment that is merged, and where its documents go.
#[derive(Debug)]
pub struct VictimTerms {
    pub terms: Vec<VictimTerm>,
    pub postings: Vec<u8>,
    pub postings_len: u64,
    pub id_space: u32,
    pub remap: Vec<Option<u32>>,
    pub old_bases: Vec<u32>,
}

/// What is left of term `t` of a segment in the merged one.
pub open spec fn term_left(
    strategy: Strategy,
    victim: VictimTerms,
    new_bases: Seq<u32>,
    t: int,
) -> Result<Seq<u32>, IndexError> {
    crate::compact::live_entry_ids(
        strategy,
        victim.id_space,
        victim.postings_len,
        victim.postings@,
        victim.remap@,
        victim.old_bases@,
        new_bases,
        victim.terms@[t].gram@,
        victim.terms@[t].packed,
        victim.terms@[t].len,
    )
}

/// Term `t` of segment `v` has the gram, and the id is left of it.
pub open spec fn term_keeps(
    strategy: Strategy,
    victims: Seq<VictimTerms>,
    new_bases: Seq<u32>,
    v: int,
    t: int,
    gram: Seq<u8>,
    id: u32,
) -> bool {
    &&& 0 <= v < victims.len()
    &&& 0 <= t < victims[v].terms@.len()
    &&& victims[v].terms@[t].gram@ == gram
    &&& term_left(strategy, victims[v], new_bases, t) matches Ok(ids) && ids.contains(id)
}

/// The first error among the terms, segment by segment, from term `t` of segment `v` on.
pub open spec fn first_unread(
    strategy: Strategy,
    victims: Seq<VictimTerms>,
    new_bases: Seq<u32>,
    v: int,
    t: int,
) -> Option<IndexError>
    decreases victims.len() - v, victims[v].terms@.len() - t,
{
    if v < 0 || v >= victims.len() {
        None
    } else if t >= victims[v].terms@.len() {
        first_unread(strategy, victims, new_bases, v + 1, 0)
    } else {
        match term_left(strategy, victims[v], new_bases, t) {
            Err(e) => Some(e),
            Ok(_) => first_unread(strategy, victims, new_bases, v, t + 1),
        }
    }
}

/// The entries are what is left of the terms before term `t` of segment `v`.
spec fn entries_left(
    entries: Seq<(Seq<u8>, Seq<u32>)>,
    strategy: Strategy,
    victims: Seq<VictimTerms>,
    new_bases: Seq<u32>,
    v: int,
    t: int,
) -> bool {
    forall|gram: Seq<u8>, id: u32| #[trigger]
        entry_lists(entries, entries.len() as int, gram, id) <==> exists|w: int, u: int|
            (w < v || w == v && u < t) && #[trigger] term_keeps(
                strategy,
                victims,
                new_bases,
                w,
                u,
                gram,
                id,
            )
}

proof fn lemma_entry_pushed(
    before: Seq<(Seq<u8>, Seq<u32>)>,
    entry: (Seq<u8>, Seq<u32>),
    gram: Seq<u8>,
    id: u32,
)
    ensures
        entry_lists(before.push(entry), before.len() as int + 1, gram, id) <==> entry_lists(
            before,
            before.len() as int,
            gram,
            id,
        ) || entry.0 == gram && entry.1.contains(id),
{
    let after = before.push(entry);
    if entry_lists(before, before.len() as int, gram, id) {
        let e = choose|e: int|
            0 <= e < before.len() && (#[trigger] before[e]).0 == gram && before[e].1.contains(id);
        assert(after[e].0 == gram);
    }
    if entry.0 == gram && entry.1.contains(id) {
        assert(after[before.len() as int].0 == gram);
    }
    if entry_lists(after, before.len() as int + 1, gram, id) {
        let e = choose|e: int|
            0 <= e < before.len() + 1 && (#[trigger] after[e]).0 == gram && after[e].1.contains(id);
        if e < before.len() {
            assert(before[e].0 == gram);
        }
    }
}

/// The posting lists of a merged segment: for each gram the ids that are left of it in any of the
/// segments.
pub fn merge_postings(
    strategy: Strategy,
    victims: &[VictimTerms],
    new_bases: &[u32],
) -> (lists: Result<Vec<GramList>, IndexError>)
    requires
        forall|v: int|
            0 <= v < victims@.len() ==> crate::compact::bases_for(
                strategy,
                (#[trigger] victims@[v]).old_bases@,
            ),
    ensures
        match lists {
            Ok(lists) => {
                &&& first_unread(strategy, victims@, new_bases@, 0, 0) is None
                &&& lists_ordered(lists@)
                &&& forall|gram: Seq<u8>, id: u32| #[trigger]
                    crate::postings::listed(lists@, id, gram) <==> exists|v: int, t: int| #[trigger]
                        term_keeps(strategy, victims@, new_bases@, v, t, gram, id)
            },
            Err(e) => first_unread(strategy, victims@, new_bases@, 0, 0) == Some(e),
        },
{
    let mut entries: Vec<PostingEntry> = Vec::new();
    let mut v: usize = 0;
    proof {
        assert forall|gram: Seq<u8>, id: u32| #[trigger]
            entry_lists(posting_views(entries@), 0, gram, id) <==> exists|w: int, u: int|
            (w < 0 || w == 0 && u < 0) && #[trigger] term_keeps(
                strategy,
                victims@,
                new_bases@,
                w,
                u,
                gram,
                id,
            ) by {}
    }
    while v < victims.len()
        invariant
            v <= victims.len(),
            forall|v: int|
                0 <= v < victims@.len() ==> crate::compact::bases_for(
                    strategy,
                    (#[trigger] victims@[v]).old_bases@,
                ),
            first_unread(strategy, victims@, new_bases@, 0, 0) == first_unread(
                strategy,
                victims@,
                new_bases@,
                v as int,
                0,
            ),
            entries_left(
                posting_views(entries@),
                strategy,
                victims@,
                new_bases@,
                v as int,
                0,
            ),
        decreases victims.len() - v,
    {
        let victim = &victims[v];
        let mut t: usize = 0;
        while t < victim.terms.len()
            invariant
                v < victims.len(),
                victim == victims@[v as int],
                t <= victim.terms.len(),
                crate::compact::bases_for(strategy, victim.old_bases@),
                first_unread(strategy, victims@, new_bases@, 0, 0) == first_unread(
                    strategy,
                    victims@,
                    new_bases@,
                    v as int,
                    t as int,
                ),
                entries_left(
                    posting_views(entries@),
                    strategy,
                    victims@,
                    new_bases@,
                    v as int,
                    t as int,
                ),
            decreases victim.terms.len() - t,
        {
            let term = &victim.terms[t];
            let ids: Vec<u32> = match live_entry(
                strategy,
                victim.id_space,
                victim.postings_len,
                victim.postings.as_slice(),
                victim.remap.as_slice(),
                victim.old_bases.as_slice(),
                new_bases,
                term.gram.as_slice(),
                term.packed,
                term.len,
            ) {
                Ok((_, ids)) => ids,
                Err(e) => return Err(e),
            };
            let ghost before = posting_views(entries@);
            let ghost left = term_left(strategy, *victim, new_bases@, t as int)->Ok_0;
            let ghost kept = ids@;
            let gram: Vec<u8> = slice_to_vec(term.gram.as_slice());
            entries.push((gram, ids));
            proof {
                let after = posting_views(entries@);
                let entry = (term.gram@, kept);
                assert(after =~= before.push(entry));
                assert forall|gram: Seq<u8>, id: u32| #[trigger]
                    entry_lists(after, after.len() as int, gram, id) <==> exists|w: int, u: int|
                    (w < v || w == v && u < t + 1) && #[trigger] term_keeps(
                        strategy,
                        victims@,
                        new_bases@,
                        w,
                        u,
                        gram,
                        id,
                    ) by {
                    lemma_entry_pushed(before, entry, gram, id);
                    assert(crate::ids::id_set(kept).contains(id) <==> crate::ids::id_set(
                        left,
                    ).contains(id));
                    if entry_lists(before, before.len() as int, gram, id) {
                        let (w, u) = choose|w: int, u: int|
                            (w < v || w == v && u < t) && #[trigger] term_keeps(
                                strategy,
                                victims@,
                                new_bases@,
                                w,
                                u,
                                gram,
                                id,
                            );
                        assert(term_keeps(strategy, victims@, new_bases@, w, u, gram, id));
                    }
                    if entry.0 == gram && entry.1.contains(id) {
                        assert(term_keeps(
                            strategy,
                            victims@,
                            new_bases@,
                            v as int,
                            t as int,
                            gram,
                            id,
                        ));
                    }
                }
            }
            t = t + 1;
        }
        proof {
            let views = posting_views(entries@);
            assert forall|gram: Seq<u8>, id: u32| #[trigger]
                entry_lists(views, views.len() as int, gram, id) <==> exists|w: int, u: int|
                (w < v + 1 || w == v + 1 && u < 0) && #[trigger] term_keeps(
                    strategy,
                    victims@,
                    new_bases@,
                    w,
                    u,
                    gram,
                    id,
                ) by {
                if exists|w: int, u: int|
                    (w < v + 1 || w == v + 1 && u < 0) && #[trigger] term_keeps(
                        strategy,
                        victims@,
                        new_bases@,
                        w,
                        u,
                        gram,
                        id,
                    ) {
                    let (w, u) = choose|w: int, u: int|
                        (w < v + 1 || w == v + 1 && u < 0) && #[trigger] term_keeps(
                            strategy,
                            victims@,
                            new_bases@,
                            w,
                            u,
                            gram,
                            id,
                        );
                    assert(w < v || w == v && u < t);
                }
            }
        }
        v = v + 1;
    }
    let ghost views = posting_views(entries@);
    let lists = join_entries(entries);
    proof {
        assert forall|gram: Seq<u8>, id: u32| #[trigger]
            crate::postings::listed(lists@, id, gram) <==> exists|w: int, u: int| #[trigger]
            term_keeps(strategy, victims@, new_bases@, w, u, gram, id) by {
            assert(entry_lists(views, views.len() as int, gram, id) <==> exists|w: int, u: int|
                (w < v || w == v && u < 0) && #[trigger] term_keeps(
                    strategy,
                    victims@,
                    new_bases@,
                    w,
                    u,
                    gram,
                    id,
                ));
            if exists|w: int, u: int| #[trigger]
                term_keeps(strategy, victims@, new_bases@, w, u, gram, id) {
                let (w, u) = choose|w: int, u: int| #[trigger]
                    term_keeps(strategy, victims@, new_bases@, w, u, gram, id);
                assert(w < v);
            }
        }
    }
    Ok(lists)
}

proof fn lemma_remapped_all(
    strategy: Strategy,
    ids: Seq<u32>,
    remap: Seq<Option<u32>>,
    old_bases: Seq<u32>,
    new_bases: Seq<u32>,
    n: int,
    id: u32,
)
    requires
        0 <= n <= ids.len(),
        crate::compact::remapped_all(strategy, ids, remap, old_bases, new_bases, n) is Ok,
    ensures
        crate::compact::remapped_all(
            strategy,
            ids,
            remap,
            old_bases,
            new_bases,
            n,
        )->Ok_0.contains(id) <==> exists|i: int|
            0 <= i < n && crate::compact::remapped(
                strategy,
                #[trigger] ids[i],
                remap,
                old_bases,
                new_bases,
            ) == Ok::<Option<u32>, IndexError>(Some(id)),
    decreases n,
{
    let out = crate::compact::remapped_all(strategy, ids, remap, old_bases, new_bases, n)->Ok_0;
    if n > 0 {
        lemma_remapped_all(strategy, ids, remap, old_bases, new_bases, n - 1, id);
        let front = crate::compact::remapped_all(
            strategy,
            ids,
            remap,
            old_bases,
            new_bases,
            n - 1,
        )->Ok_0;
        let last = crate::compact::remapped(strategy, ids[n - 1], remap, old_bases, new_bases);
        if last is Ok && last->Ok_0 is Some {
            crate::ids::lemma_push_contains(front, last->Ok_0->0);
            assert(out.contains(id) <==> front.contains(id) || id == last->Ok_0->0) by {
                lemma_sum_contains(front, seq![last->Ok_0->0], id);
                assert(out =~= front + seq![last->Ok_0->0]);
                assert(seq![last->Ok_0->0].contains(id) <==> id == last->Ok_0->0) by {
                    assert(seq![last->Ok_0->0][0] == last->Ok_0->0);
                }
            }
        }
        if exists|i: int|
            0 <= i < n && crate::compact::remapped(
                strategy,
                #[trigger] ids[i],
                remap,
                old_bases,
                new_bases,
            ) == Ok::<Option<u32>, IndexError>(Some(id)) {
            let i = choose|i: int|
                0 <= i < n && crate::compact::remapped(
                    strategy,
                    #[trigger] ids[i],
                    remap,
                    old_bases,
                    new_bases,
                ) == Ok::<Option<u32>, IndexError>(Some(id));
            if i < n - 1 {
                assert(front.contains(id));
            }
        }
    }
}

/// The terms of a segment lead to its lists.
pub open spec fn victim_reads(
    strategy: Strategy,
    victim: VictimTerms,
    lists: Seq<GramList>,
) -> bool {
    &&& victim.terms@.len() == lists.len()
    &&& forall|t: int|
        0 <= t < lists.len() ==> {
            &&& (#[trigger] victim.terms@[t]).gram@ == lists[t].gram@
            &&& crate::compact::entry_ids(
                strategy,
                victim.id_space,
                victim.postings_len,
                victim.postings@,
                victim.terms@[t].packed,
                victim.terms@[t].len,
            ) == Ok::<Seq<u32>, IndexError>(lists[t].ids@)
        }
}

/// What segment `v` brings to a merge: its lists with ids of its own blocks, the first ids of its
/// documents, and their new places.
pub open spec fn victim_fits(
    victim: VictimTerms,
    lists: Seq<GramList>,
    table: crate::format::SegmentTables,
    remap: Seq<Option<u32>>,
) -> bool {
    &&& victim_reads(Strategy::Trigram, victim, lists)
    &&& victim.remap@ == remap
    &&& victim.old_bases@ == crate::candidate::block_bases(table)
    &&& crate::candidate::valid_bases(victim.old_bases@)
    &&& crate::candidate::blocks_before(table, table.documents@.len()) <= u32::MAX
    &&& forall|t: int, i: int|
        0 <= t < lists.len() && 0 <= i < lists[t].ids@.len() ==> #[trigger] lists[t].ids@[i]
            < crate::candidate::blocks_before(table, table.documents@.len())
}

/// The postings of a merged segment are those of its documents before the merge: a block of a
/// document is listed under a gram if and only if it was listed under the gram in the segment that
/// it comes from. What is listed is a block of a document that was kept, so no dead document is.
pub proof fn merged_postings_keep_grams(
    lists: Seq<GramList>,
    victims: Seq<VictimTerms>,
    olds: Seq<Seq<GramList>>,
    tables: Seq<crate::format::SegmentTables>,
    merged: crate::format::SegmentTables,
    docs: Seq<(usize, u32)>,
    remaps: Seq<Vec<Option<u32>>>,
    new_bases: Seq<u32>,
    m: int,
    b: int,
    gram: Seq<u8>,
)
    requires
        tables.len() <= usize::MAX,
        victims.len() == tables.len(),
        olds.len() == tables.len(),
        crate::compact::remaps_of(remaps, docs, tables),
        forall|v: int|
            0 <= v < tables.len() ==> victim_fits(
                #[trigger] victims[v],
                olds[v],
                tables[v],
                remaps[v]@,
            ) && tables[v].documents@.len() <= u32::MAX,
        merged.documents@.len() == docs.len(),
        docs.len() <= u32::MAX,
        forall|k: int|
            0 <= k < docs.len() ==> (#[trigger] merged.documents@[k]).decoded_size
                == tables[docs[k].0 as int].documents@[docs[k].1 as int].decoded_size,
        new_bases == crate::candidate::block_bases(merged),
        crate::candidate::valid_bases(new_bases),
        crate::candidate::blocks_before(merged, merged.documents@.len()) <= u32::MAX,
        first_unread(Strategy::Trigram, victims, new_bases, 0, 0) is None,
        forall|gram: Seq<u8>, id: u32| #[trigger]
            crate::postings::listed(lists, id, gram) <==> exists|v: int, t: int| #[trigger]
                term_keeps(Strategy::Trigram, victims, new_bases, v, t, gram, id),
        0 <= m < docs.len(),
        0 <= b < crate::candidate::block_count(merged.documents@[m].decoded_size),
    ensures
        crate::postings::listed(
            lists,
            (crate::candidate::blocks_before(merged, m as nat) + b) as u32,
            gram,
        ) <==> crate::postings::listed(
            olds[docs[m].0 as int],
            (crate::candidate::blocks_before(tables[docs[m].0 as int], docs[m].1 as nat) + b) as u32,
            gram,
        ),
        forall|id: u32|
            crate::postings::listed(lists, id, gram) ==> id < #[trigger] crate::candidate::blocks_before(
                merged,
                merged.documents@.len(),
            ),
{
    let strategy = Strategy::Trigram;
    let s = docs[m].0 as int;
    let d = docs[m].1 as int;
    assert(victim_fits(victims[s], olds[s], tables[s], remaps[s]@));
    let new_id = (crate::candidate::blocks_before(merged, m as nat) + b) as u32;
    let old_id = (crate::candidate::blocks_before(tables[s], d as nat) + b) as u32;
    assert(merged.documents@[m].decoded_size == tables[s].documents@[d].decoded_size);
    crate::candidate::lemma_blocks_before_mono(merged, (m + 1) as nat, merged.documents@.len());
    crate::candidate::lemma_blocks_before_mono(
        tables[s],
        (d + 1) as nat,
        tables[s].documents@.len(),
    );
    assert forall|id: u32| crate::postings::listed(lists, id, gram) implies id
        < #[trigger] crate::candidate::blocks_before(merged, merged.documents@.len()) && exists|
        v: int,
        old: u32,
    | #[trigger] comes_from(victims, olds, tables, merged, docs, v, old, id, gram) by {
        let (v, t) = choose|v: int, t: int| #[trigger]
            term_keeps(strategy, victims, new_bases, v, t, gram, id);
        let old = lemma_kept_origin(
            victims,
            olds,
            tables,
            merged,
            docs,
            remaps,
            new_bases,
            v,
            t,
            gram,
            id,
        );
        assert(comes_from(victims, olds, tables, merged, docs, v, old, id, gram));
    }
    if crate::postings::listed(lists, new_id, gram) {
        assert(new_id < crate::candidate::blocks_before(merged, merged.documents@.len()));
        let (v, old) = choose|v: int, old: u32| #[trigger]
            comes_from(victims, olds, tables, merged, docs, v, old, new_id, gram);
        let k = choose|k: int| #[trigger]
            origin_place(tables, merged, docs, v, old, new_id, k);
        if k < m {
            crate::candidate::lemma_blocks_before_mono(merged, (k + 1) as nat, m as nat);
        } else if m < k {
            crate::candidate::lemma_blocks_before_mono(merged, (m + 1) as nat, k as nat);
        }
        assert(k == m);
        assert(old == old_id);
    }
    if crate::postings::listed(olds[s], old_id, gram) {
        let t = choose|t: int|
            0 <= t < olds[s].len() && (#[trigger] olds[s][t]).gram@ == gram
                && olds[s][t].ids@.contains(old_id);
        assert(victims[s].terms@[t].gram@ == olds[s][t].gram@);
        let ids = olds[s][t].ids@;
        let i = choose|i: int| 0 <= i < ids.len() && ids[i] == old_id;
        lemma_all_read(strategy, victims, new_bases, 0, 0, s, t);
        let left = term_left(strategy, victims[s], new_bases, t);
        assert(left is Ok);
        lemma_remapped_all(
            strategy,
            ids,
            victims[s].remap@,
            victims[s].old_bases@,
            new_bases,
            ids.len() as int,
            new_id,
        );
        assert(remaps[docs[m].0 as int]@[docs[m].1 as int] == Some(m as u32));
        let old_bases = victims[s].old_bases@;
        assert(old_bases[d] == crate::candidate::blocks_before(tables[s], d as nat));
        assert(old_bases[d + 1] == crate::candidate::blocks_before(tables[s], (d + 1) as nat));
        assert(crate::candidate::holds_block(old_bases, d, old_id));
        assert(new_bases[m] == crate::candidate::blocks_before(merged, m as nat));
        assert(new_bases[m + 1] == crate::candidate::blocks_before(merged, (m + 1) as nat));
        crate::compact::remapped_blocks_keep_their_place(
            old_id,
            victims[s].remap@,
            old_bases,
            new_bases,
            d,
        );
        assert(crate::compact::remapped(
            strategy,
            ids[i],
            victims[s].remap@,
            old_bases,
            new_bases,
        ) == Ok::<Option<u32>, IndexError>(Some(new_id)));
        assert(term_keeps(strategy, victims, new_bases, s, t, gram, new_id));
    }
}

/// Block `id` of the merged segment is a block of document `k`, and `old` is that block in segment
/// `v`.
spec fn origin_place(
    tables: Seq<crate::format::SegmentTables>,
    merged: crate::format::SegmentTables,
    docs: Seq<(usize, u32)>,
    v: int,
    old: u32,
    id: u32,
    k: int,
) -> bool {
    &&& 0 <= k < docs.len()
    &&& docs[k].0 == v
    &&& crate::candidate::blocks_before(merged, k as nat) <= id
        < crate::candidate::blocks_before(merged, (k + 1) as nat)
    &&& old - crate::candidate::blocks_before(tables[v], docs[k].1 as nat) == id
        - crate::candidate::blocks_before(merged, k as nat)
}

/// The block comes from block `old` of segment `v`, where it is listed under the gram.
spec fn comes_from(
    victims: Seq<VictimTerms>,
    olds: Seq<Seq<GramList>>,
    tables: Seq<crate::format::SegmentTables>,
    merged: crate::format::SegmentTables,
    docs: Seq<(usize, u32)>,
    v: int,
    old: u32,
    id: u32,
    gram: Seq<u8>,
) -> bool {
    &&& 0 <= v < victims.len()
    &&& crate::postings::listed(olds[v], old, gram)
    &&& exists|k: int| #[trigger] origin_place(tables, merged, docs, v, old, id, k)
}

proof fn lemma_all_read(
    strategy: Strategy,
    victims: Seq<VictimTerms>,
    new_bases: Seq<u32>,
    v: int,
    t: int,
    w: int,
    u: int,
)
    requires
        0 <= v < victims.len(),
        0 <= t,
        0 <= w < victims.len(),
        0 <= u < victims[w].terms@.len(),
        v < w || v == w && t <= u,
        first_unread(strategy, victims, new_bases, v, t) is None,
    ensures
        term_left(strategy, victims[w], new_bases, u) is Ok,
    decreases victims.len() - v, victims[v].terms@.len() - t,
{
    if t >= victims[v].terms@.len() {
        lemma_all_read(strategy, victims, new_bases, v + 1, 0, w, u);
    } else if !(v == w && t == u) {
        lemma_all_read(strategy, victims, new_bases, v, t + 1, w, u);
    }
}

proof fn lemma_kept_origin(
    victims: Seq<VictimTerms>,
    olds: Seq<Seq<GramList>>,
    tables: Seq<crate::format::SegmentTables>,
    merged: crate::format::SegmentTables,
    docs: Seq<(usize, u32)>,
    remaps: Seq<Vec<Option<u32>>>,
    new_bases: Seq<u32>,
    v: int,
    t: int,
    gram: Seq<u8>,
    id: u32,
) -> (old: u32)
    requires
        tables.len() <= usize::MAX,
        victims.len() == tables.len(),
        olds.len() == tables.len(),
        crate::compact::remaps_of(remaps, docs, tables),
        forall|v: int|
            0 <= v < tables.len() ==> victim_fits(
                #[trigger] victims[v],
                olds[v],
                tables[v],
                remaps[v]@,
            ) && tables[v].documents@.len() <= u32::MAX,
        merged.documents@.len() == docs.len(),
        docs.len() <= u32::MAX,
        forall|k: int|
            0 <= k < docs.len() ==> (#[trigger] merged.documents@[k]).decoded_size
                == tables[docs[k].0 as int].documents@[docs[k].1 as int].decoded_size,
        new_bases == crate::candidate::block_bases(merged),
        crate::candidate::blocks_before(merged, merged.documents@.len()) <= u32::MAX,
        term_keeps(Strategy::Trigram, victims, new_bases, v, t, gram, id),
    ensures
        comes_from(victims, olds, tables, merged, docs, v, old, id, gram),
        id < crate::candidate::blocks_before(merged, merged.documents@.len()),
{
    let strategy = Strategy::Trigram;
    let victim = victims[v];
    assert(victim_fits(victim, olds[v], tables[v], remaps[v]@));
    assert(victim.terms@[t].gram@ == olds[v][t].gram@);
    let ids = olds[v][t].ids@;
    let old_bases = victim.old_bases@;
    lemma_remapped_all(
        strategy,
        ids,
        victim.remap@,
        old_bases,
        new_bases,
        ids.len() as int,
        id,
    );
    let i = choose|i: int|
        0 <= i < ids.len() && crate::compact::remapped(
            strategy,
            #[trigger] ids[i],
            victim.remap@,
            old_bases,
            new_bases,
        ) == Ok::<Option<u32>, IndexError>(Some(id));
    let old = ids[i];
    assert(olds[v][t].ids@.contains(old));
    assert(crate::postings::listed(olds[v], old, gram));
    let n = tables[v].documents@.len() as int;
    assert(old_bases.len() == n + 1);
    assert(old_bases[n] == crate::candidate::blocks_before(tables[v], n as nat));
    let d = crate::candidate::document_of(old_bases, old);
    crate::candidate::lemma_document_of(old_bases, old);
    crate::compact::lemma_block_unique(old_bases, old, d);
    assert(d < n);
    assert(remaps[v]@[d] is Some);
    let k = remaps[v]@[d]->0 as int;
    assert(docs[k] == (v as usize, d as u32));
    assert(merged.documents@[k].decoded_size == tables[v].documents@[d].decoded_size);
    assert(old_bases[d] == crate::candidate::blocks_before(tables[v], d as nat)) by {
        crate::candidate::lemma_blocks_before_mono(tables[v], d as nat, n as nat);
    }
    assert(old_bases[d + 1] == crate::candidate::blocks_before(tables[v], (d + 1) as nat)) by {
        crate::candidate::lemma_blocks_before_mono(tables[v], (d + 1) as nat, n as nat);
    }
    crate::candidate::lemma_blocks_before_mono(merged, k as nat, docs.len());
    crate::candidate::lemma_blocks_before_mono(merged, (k + 1) as nat, docs.len());
    assert(new_bases[k] == crate::candidate::blocks_before(merged, k as nat));
    assert(origin_place(tables, merged, docs, v, old, id, k));
    old
}

/// What a segment whose postings name documents brings to a merge: its lists with ids of its own
/// documents, and their new places.
pub open spec fn document_victim_fits(
    victim: VictimTerms,
    lists: Seq<GramList>,
    table: crate::format::SegmentTables,
    remap: Seq<Option<u32>>,
) -> bool {
    &&& victim_reads(Strategy::Sparse, victim, lists)
    &&& victim.remap@ == remap
    &&& forall|t: int, i: int|
        0 <= t < lists.len() && 0 <= i < lists[t].ids@.len() ==> #[trigger] lists[t].ids@[i]
            < table.documents@.len()
}

/// The postings of a merged segment whose postings name documents are those of its documents before
/// the merge: a document is listed under a gram if and only if it was listed under the gram in the
/// segment that it comes from. What is listed is a document that was kept.
pub proof fn merged_document_postings_keep_grams(
    lists: Seq<GramList>,
    victims: Seq<VictimTerms>,
    olds: Seq<Seq<GramList>>,
    tables: Seq<crate::format::SegmentTables>,
    docs: Seq<(usize, u32)>,
    remaps: Seq<Vec<Option<u32>>>,
    new_bases: Seq<u32>,
    m: int,
    gram: Seq<u8>,
)
    requires
        tables.len() <= usize::MAX,
        victims.len() == tables.len(),
        olds.len() == tables.len(),
        crate::compact::remaps_of(remaps, docs, tables),
        forall|v: int|
            0 <= v < tables.len() ==> document_victim_fits(
                #[trigger] victims[v],
                olds[v],
                tables[v],
                remaps[v]@,
            ) && tables[v].documents@.len() <= u32::MAX,
        docs.len() <= u32::MAX,
        first_unread(Strategy::Sparse, victims, new_bases, 0, 0) is None,
        forall|gram: Seq<u8>, id: u32| #[trigger]
            crate::postings::listed(lists, id, gram) <==> exists|v: int, t: int| #[trigger]
                term_keeps(Strategy::Sparse, victims, new_bases, v, t, gram, id),
        0 <= m < docs.len(),
    ensures
        crate::postings::listed(lists, m as u32, gram) <==> crate::postings::listed(
            olds[docs[m].0 as int],
            docs[m].1,
            gram,
        ),
        forall|id: u32| #[trigger] crate::postings::listed(lists, id, gram) ==> id < docs.len(),
{
    let strategy = Strategy::Sparse;
    let s = docs[m].0 as int;
    let d = docs[m].1;
    assert(document_victim_fits(victims[s], olds[s], tables[s], remaps[s]@));
    assert forall|id: u32| #[trigger] crate::postings::listed(lists, id, gram) implies id
        < docs.len() && crate::postings::listed(olds[docs[id as int].0 as int], docs[id as int].1, gram) by {
        let (v, t) = choose|v: int, t: int| #[trigger]
            term_keeps(strategy, victims, new_bases, v, t, gram, id);
        let victim = victims[v];
        assert(document_victim_fits(victim, olds[v], tables[v], remaps[v]@));
        assert(victim.terms@[t].gram@ == olds[v][t].gram@);
        let ids = olds[v][t].ids@;
        lemma_remapped_all(
            strategy,
            ids,
            victim.remap@,
            victim.old_bases@,
            new_bases,
            ids.len() as int,
            id,
        );
        let i = choose|i: int|
            0 <= i < ids.len() && crate::compact::remapped(
                strategy,
                #[trigger] ids[i],
                victim.remap@,
                victim.old_bases@,
                new_bases,
            ) == Ok::<Option<u32>, IndexError>(Some(id));
        assert(olds[v][t].ids@[i] < tables[v].documents@.len());
        assert(olds[v][t].ids@.contains(ids[i]));
        assert(crate::postings::listed(olds[v], ids[i], gram));
        assert(remaps[v]@[ids[i] as int] == Some(id));
        assert(docs[id as int] == (v as usize, ids[i]));
    }
    if crate::postings::listed(olds[s], d, gram) {
        let t = choose|t: int|
            0 <= t < olds[s].len() && (#[trigger] olds[s][t]).gram@ == gram
                && olds[s][t].ids@.contains(d);
        assert(victims[s].terms@[t].gram@ == olds[s][t].gram@);
        let ids = olds[s][t].ids@;
        let i = choose|i: int| 0 <= i < ids.len() && ids[i] == d;
        lemma_all_read(strategy, victims, new_bases, 0, 0, s, t);
        lemma_remapped_all(
            strategy,
            ids,
            victims[s].remap@,
            victims[s].old_bases@,
            new_bases,
            ids.len() as int,
            m as u32,
        );
        assert(remaps[docs[m].0 as int]@[docs[m].1 as int] == Some(m as u32));
        assert(crate::compact::remapped(
            strategy,
            ids[i],
            victims[s].remap@,
            victims[s].old_bases@,
            new_bases,
        ) == Ok::<Option<u32>, IndexError>(Some(m as u32)));
        assert(term_keeps(strategy, victims, new_bases, s, t, gram, m as u32));
    }
}

/// Block `b` of document `d` has the gram.
pub open spec fn block_has(bodies: Seq<Vec<u8>>, d: int, b: int, gram: Seq<u8>) -> bool {
    &&& 0 <= d < bodies.len()
    &&& 0 <= b < crate::candidate::block_count(bodies[d]@.len() as u64)
    &&& crate::planner::trigrams_of(
        crate::postings::block_window(bodies[d]@, b),
    ).contains(gram)
}

/// The documents' blocks have these ids, one after another.
pub open spec fn bases_of_bodies(bases: Seq<u32>, bodies: Seq<Vec<u8>>) -> bool {
    &&& bases.len() == bodies.len() + 1
    &&& forall|d: int|
        0 <= d < bodies.len() ==> #[trigger] bases[d] + crate::candidate::block_count(
            bodies[d]@.len() as u64,
        ) == bases[d + 1]
}

/// The entries are those of the blocks before block `b` of document `d`.
spec fn blocks_listed(
    entries: Seq<(Seq<u8>, Seq<u32>)>,
    bodies: Seq<Vec<u8>>,
    bases: Seq<u32>,
    d: int,
    b: int,
) -> bool {
    forall|gram: Seq<u8>, id: u32| #[trigger]
        entry_lists(entries, entries.len() as int, gram, id) <==> exists|c: int, a: int|
            (c < d || c == d && a < b) && #[trigger] block_has(bodies, c, a, gram) && id == bases[c]
                + a
}

/// The posting lists of documents: for each trigram the blocks that have it.
pub fn list_documents(bodies: &[Vec<u8>], bases: &[u32]) -> (lists: Vec<GramList>)
    requires
        bases_of_bodies(bases@, bodies@),
    ensures
        lists_ordered(lists@),
        forall|gram: Seq<u8>, id: u32| #[trigger]
            crate::postings::listed(lists@, id, gram) <==> exists|d: int, b: int| #[trigger]
                block_has(bodies@, d, b, gram) && id == bases@[d] + b,
{
    let mut entries: Vec<PostingEntry> = Vec::new();
    let mut d: usize = 0;
    assert(blocks_listed(posting_views(entries@), bodies@, bases@, 0, 0));
    while d < bodies.len()
        invariant
            d <= bodies.len(),
            bases_of_bodies(bases@, bodies@),
            blocks_listed(posting_views(entries@), bodies@, bases@, d as int, 0),
        decreases bodies.len() - d,
    {
        let body: &Vec<u8> = &bodies[d];
        let n: usize = body.len();
        let count: usize = n / CANDIDATE_BLOCK_BYTES + if n % CANDIDATE_BLOCK_BYTES == 0 {
            0
        } else {
            1
        };
        assert(count == crate::candidate::block_count(body@.len() as u64));
        assert(bases@[d as int] + count == bases@[d + 1]);
        let mut b: usize = 0;
        while b < count
            invariant
                b <= count,
                d < bodies.len(),
                body == bodies@[d as int],
                count == crate::candidate::block_count(body@.len() as u64),
                bases_of_bodies(bases@, bodies@),
                bases@[d as int] + count == bases@[d + 1],
                blocks_listed(posting_views(entries@), bodies@, bases@, d as int, b as int),
            decreases count - b,
        {
            let grams = block_trigrams(body.as_slice(), b);
            let id: u32 = bases[d] + b as u32;
            let ghost shown = posting_views(entries@);
            let ghost window = crate::planner::trigrams_of(
                crate::postings::block_window(body@, b as int),
            );
            let mut g: usize = 0;
            while g < grams.len()
                invariant
                    g <= grams.len(),
                    grams@.map_values(|gram: Vec<u8>| gram@) == window,
                    forall|gram: Seq<u8>, x: u32| #[trigger]
                        entry_lists(
                            posting_views(entries@),
                            entries@.len() as int,
                            gram,
                            x,
                        ) <==> entry_lists(shown, shown.len() as int, gram, x) || x == id
                            && window.take(g as int).contains(gram),
                decreases grams.len() - g,
            {
                let gram: Vec<u8> = slice_to_vec(grams[g].as_slice());
                let mut ids: Vec<u32> = Vec::new();
                ids.push(id);
                let ghost before = posting_views(entries@);
                entries.push((gram, ids));
                proof {
                    let entry = (gram@, ids@);
                    let after = posting_views(entries@);
                    assert(after =~= before.push(entry));
                    assert(window[g as int] == gram@);
                    assert(window.take(g + 1) =~= window.take(g as int).push(gram@));
                    assert forall|key: Seq<u8>, x: u32| #[trigger]
                        entry_lists(after, after.len() as int, key, x) <==> entry_lists(
                        shown,
                        shown.len() as int,
                        key,
                        x,
                    ) || x == id && window.take(g + 1).contains(key) by {
                        lemma_entry_pushed(before, entry, key, x);
                        assert(ids@.contains(x) <==> x == id) by {
                            assert(ids@ =~= seq![id]);
                            assert(seq![id][0] == id);
                        }
                        lemma_push_has(window.take(g as int), gram@, key);
                    }
                }
                g = g + 1;
            }
            proof {
                assert(window.take(g as int) =~= window);
                let after = posting_views(entries@);
                assert forall|key: Seq<u8>, x: u32| #[trigger]
                    entry_lists(after, after.len() as int, key, x) <==> exists|c: int, a: int|
                    (c < d || c == d && a < b + 1) && #[trigger] block_has(bodies@, c, a, key) && x
                        == bases@[c] + a by {
                    if entry_lists(shown, shown.len() as int, key, x) {
                        let (c, a) = choose|c: int, a: int|
                            (c < d || c == d && a < b) && #[trigger] block_has(
                                bodies@,
                                c,
                                a,
                                key,
                            ) && x == bases@[c] + a;
                        assert(block_has(bodies@, c, a, key));
                    }
                    if x == id && window.contains(key) {
                        assert(block_has(bodies@, d as int, b as int, key));
                    }
                    if exists|c: int, a: int|
                        (c < d || c == d && a < b + 1) && #[trigger] block_has(bodies@, c, a, key)
                            && x == bases@[c] + a {
                        let (c, a) = choose|c: int, a: int|
                            (c < d || c == d && a < b + 1) && #[trigger] block_has(
                                bodies@,
                                c,
                                a,
                                key,
                            ) && x == bases@[c] + a;
                        if c < d || a < b {
                            assert(entry_lists(shown, shown.len() as int, key, x));
                        }
                    }
                }
            }
            b = b + 1;
        }
        proof {
            let after = posting_views(entries@);
            assert forall|key: Seq<u8>, x: u32| #[trigger]
                entry_lists(after, after.len() as int, key, x) <==> exists|c: int, a: int|
                (c < d + 1 || c == d + 1 && a < 0) && #[trigger] block_has(bodies@, c, a, key) && x
                    == bases@[c] + a by {
                if exists|c: int, a: int|
                    (c < d + 1 || c == d + 1 && a < 0) && #[trigger] block_has(bodies@, c, a, key)
                        && x == bases@[c] + a {
                    let (c, a) = choose|c: int, a: int|
                        (c < d + 1 || c == d + 1 && a < 0) && #[trigger] block_has(
                            bodies@,
                            c,
                            a,
                            key,
                        ) && x == bases@[c] + a;
                    assert(c < d || c == d && a < b);
                }
            }
        }
        d = d + 1;
    }
    let ghost views = posting_views(entries@);
    let lists = join_entries(entries);
    proof {
        assert forall|gram: Seq<u8>, id: u32| #[trigger]
            crate::postings::listed(lists@, id, gram) <==> exists|c: int, a: int| #[trigger]
            block_has(bodies@, c, a, gram) && id == bases@[c] + a by {
            assert(entry_lists(views, views.len() as int, gram, id) <==> exists|c: int, a: int|
                (c < d || c == d && a < 0) && #[trigger] block_has(bodies@, c, a, gram) && id
                    == bases@[c] + a);
            if exists|c: int, a: int| #[trigger]
                block_has(bodies@, c, a, gram) && id == bases@[c] + a {
                let (c, a) = choose|c: int, a: int| #[trigger]
                    block_has(bodies@, c, a, gram) && id == bases@[c] + a;
                assert(c < d);
            }
        }
    }
    lists
}

proof fn lemma_push_has(front: Seq<Seq<u8>>, last: Seq<u8>, key: Seq<u8>)
    ensures
        front.push(last).contains(key) <==> front.contains(key) || last == key,
{
    let all = front.push(last);
    if front.contains(key) {
        let k = choose|k: int| 0 <= k < front.len() && front[k] == key;
        assert(all[k] == key);
    }
    if last == key {
        assert(all[front.len() as int] == key);
    }
    if all.contains(key) {
        let k = choose|k: int| 0 <= k < all.len() && all[k] == key;
        if k < front.len() {
            assert(front[k] == key);
        }
    }
}

/// The lists of documents index them: every trigram of a document is listed at the block that it
/// counts for.
pub proof fn listed_documents_are_indexed(
    lists: Seq<GramList>,
    bodies: Seq<Vec<u8>>,
    bases: Seq<u32>,
    d: int,
)
    requires
        bases_of_bodies(bases, bodies),
        0 <= d < bodies.len(),
        forall|gram: Seq<u8>, id: u32| #[trigger]
            crate::postings::listed(lists, id, gram) <==> exists|d: int, b: int| #[trigger]
                block_has(bodies, d, b, gram) && id == bases[d] + b,
    ensures
        crate::scan::document_indexed(lists, bodies[d]@, bases[d] as nat),
{
    let body = bodies[d]@;
    assert forall|b: int, gram: Seq<u8>|
        0 <= b < crate::candidate::block_count(body.len() as u64)
            && #[trigger] crate::planner::trigrams_of(
            crate::postings::block_window(body, b),
        ).contains(gram) implies crate::postings::listed(
        lists,
        (bases[d] as nat + b) as u32,
        gram,
    ) by {
        assert(bases[d] + crate::candidate::block_count(body.len() as u64) == bases[d + 1]);
        assert(block_has(bodies, d, b, gram));
    }
}

} // verus!
