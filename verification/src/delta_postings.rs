//! Writing posting lists as delta blocks, whose lengths are kept beside them, and reading written
//! lists back for a merge.

use vstd::prelude::*;

use crate::delta_blocks::encode_delta_blocks;
use crate::delta_blocks::encoded_len;
use crate::error::IndexError;
use crate::eval::pack_posting;
use crate::eval::TermLookup;
use crate::eval::TermValue;
use crate::postings::GramList;

verus! {

/// What a list adds to the blocks: nothing for a single id, which the value itself holds.
pub open spec fn delta_block(list: GramList) -> Seq<u8> {
    if list.ids@.len() == 1 {
        Seq::empty()
    } else {
        crate::delta_blocks::encoded(list.ids@)
    }
}

/// The blocks of the first `n` lists.
pub open spec fn delta_blocks(lists: Seq<GramList>, n: int) -> Seq<u8>
    decreases n,
{
    if n <= 0 {
        Seq::empty()
    } else {
        delta_blocks(lists, n - 1) + delta_block(lists[n - 1])
    }
}

/// What the value of list `k` says besides its count: the one id, or where its block starts.
pub open spec fn delta_offset(lists: Seq<GramList>, k: int) -> nat {
    if lists[k].ids@.len() == 1 {
        lists[k].ids@[0] as nat
    } else {
        delta_blocks(lists, k).len()
    }
}

/// What keeps list `k` from being written.
pub open spec fn delta_error(lists: Seq<GramList>, k: int) -> Option<IndexError> {
    let offset = delta_offset(lists, k);
    let count = lists[k].ids@.len();
    if offset >= crate::eval::OFFSET_LIMIT {
        Some(IndexError::PostingOffset { offset: offset as u64 })
    } else if count > crate::eval::MAX_POSTING_COUNT {
        Some(IndexError::PostingCount { ids: count as usize })
    } else {
        None
    }
}

/// The value that leads to list `k`, with the length of its block.
pub open spec fn delta_value(lists: Seq<GramList>, k: int) -> TermValue {
    TermValue {
        packed: (delta_offset(lists, k) + lists[k].ids@.len() * crate::eval::OFFSET_LIMIT) as u64,
        len: Some(delta_block(lists[k]).len() as u64),
    }
}

/// The values that lead to the lists, and the delta blocks that the values point into.
pub fn write_delta_postings(lists: &[GramList], id_space: u32) -> (written: Result<
    (Vec<TermValue>, Vec<u8>),
    IndexError,
>)
    requires
        crate::postings::lists_within(lists@, id_space),
    ensures
        match written {
            Ok((values, blocks)) => {
                &&& values@.len() == lists@.len()
                &&& forall|k: int|
                    0 <= k < values@.len() ==> #[trigger] values@[k] == delta_value(lists@, k)
                        && delta_error(lists@, k) is None
                &&& blocks@ == delta_blocks(lists@, lists@.len() as int)
            },
            Err(e) => exists|k: int|
                0 <= k < lists@.len() && #[trigger] delta_error(lists@, k) == Some(e)
                    && forall|j: int| 0 <= j < k ==> #[trigger] delta_error(lists@, j) is None,
        },
{
    let mut values: Vec<TermValue> = Vec::new();
    let mut blocks: Vec<u8> = Vec::new();
    let mut k: usize = 0;
    while k < lists.len()
        invariant
            crate::postings::lists_within(lists@, id_space),
            k <= lists@.len(),
            values@.len() == k,
            forall|j: int| 0 <= j < k ==> #[trigger] values@[j] == delta_value(lists@, j),
            forall|j: int| 0 <= j < k ==> #[trigger] delta_error(lists@, j) is None,
            blocks@ == delta_blocks(lists@, k as int),
        decreases lists.len() - k,
    {
        let list = &lists[k];
        assert(lists@[k as int].ids@.len() > 0);
        let single: bool = list.ids.len() == 1;
        let offset: u64 = if single {
            list.ids[0] as u64
        } else {
            blocks.len() as u64
        };
        let packed: u64 = match pack_posting(offset, list.ids.len()) {
            Err(e) => {
                assert(delta_error(lists@, k as int) == Some(e));
                return Err(e);
            },
            Ok(packed) => packed,
        };
        assert(delta_error(lists@, k as int) is None);
        let len: u64 = if single {
            0
        } else {
            encoded_len(list.ids.as_slice())
        };
        values.push(TermValue { packed, len: Some(len) });
        if !single {
            encode_delta_blocks(list.ids.as_slice(), &mut blocks);
        }
        assert(blocks@ =~= delta_blocks(lists@, k + 1));
        k = k + 1;
    }
    Ok((values, blocks))
}

proof fn lemma_delta_grow(lists: Seq<GramList>, m: int, n: int)
    requires
        0 <= m <= n <= lists.len(),
    ensures
        delta_blocks(lists, m).len() <= delta_blocks(lists, n).len(),
        delta_blocks(lists, n).subrange(0, delta_blocks(lists, m).len() as int) == delta_blocks(
            lists,
            m,
        ),
    decreases n - m,
{
    let short = delta_blocks(lists, m);
    if m < n {
        lemma_delta_grow(lists, m, n - 1);
        let middle = delta_blocks(lists, n - 1);
        assert(delta_blocks(lists, n).subrange(0, short.len() as int) =~= middle.subrange(
            0,
            short.len() as int,
        ));
    } else {
        assert(short.subrange(0, short.len() as int) =~= short);
    }
}

proof fn lemma_count_fits(ids: Seq<u32>, id_space: u32)
    requires
        crate::posting_block::ids_within(ids, id_space as nat),
    ensures
        ids.len() <= id_space,
{
    if ids.len() > 0 {
        crate::ids::lemma_ascending_floor(ids, ids.len() - 1);
        assert(ids[ids.len() - 1] < id_space);
    }
}

/// Delta blocks read back: the value and length of a list lead to its ids.
pub proof fn delta_lists_read_back(lists: Seq<GramList>, k: int, id_space: u32)
    requires
        crate::postings::lists_within(lists, id_space),
        0 <= k < lists.len(),
        delta_error(lists, k) is None,
        delta_blocks(lists, lists.len() as int).len() <= u64::MAX,
    ensures
        crate::compact::entry_ids(
            crate::query::Strategy::Sparse,
            id_space,
            delta_blocks(lists, lists.len() as int).len() as u64,
            delta_blocks(lists, lists.len() as int),
            delta_value(lists, k).packed,
            delta_value(lists, k).len,
        ) == Ok::<Seq<u32>, IndexError>(lists[k].ids@),
{
    let ids = lists[k].ids@;
    let all = delta_blocks(lists, lists.len() as int);
    assert(lists[k].ids@.len() > 0);
    crate::eval::posting_round_trip(delta_offset(lists, k) as u64, ids.len());
    lemma_count_fits(ids, id_space);
    if ids.len() == 1 {
        assert(ids =~= seq![ids[0]]);
    } else {
        let before = delta_blocks(lists, k);
        let after = delta_blocks(lists, k + 1);
        lemma_delta_grow(lists, k + 1, lists.len() as int);
        let block = crate::delta_blocks::encoded(ids);
        assert(after == before + block);
        assert(all.subrange(before.len() as int, after.len() as int) =~= block) by {
            assert(all.subrange(0, after.len() as int) == after);
            assert(all.subrange(before.len() as int, after.len() as int) =~= all.subrange(
                0,
                after.len() as int,
            ).subrange(before.len() as int, after.len() as int));
        }
        assert(ids.last() < id_space);
        crate::delta_blocks::delta_blocks_round_trip(ids, id_space);
    }
}

/// Blocks of fixed width read back: the value of a list leads to its ids.
pub proof fn fixed_lists_read_back(lists: Seq<GramList>, k: int, id_space: u32)
    requires
        crate::postings::lists_within(lists, id_space),
        0 <= k < lists.len(),
        crate::postings::list_error(lists, k, id_space) is None,
        crate::postings::list_blocks(lists, lists.len() as int, id_space).len() <= u64::MAX,
    ensures
        crate::compact::entry_ids(
            crate::query::Strategy::Trigram,
            id_space,
            crate::postings::list_blocks(lists, lists.len() as int, id_space).len() as u64,
            crate::postings::list_blocks(lists, lists.len() as int, id_space),
            crate::postings::list_value(lists, k, id_space) as u64,
            None,
        ) == Ok::<Seq<u32>, IndexError>(lists[k].ids@),
{
    let ids = lists[k].ids@;
    assert(lists[k].ids@.len() > 0);
    lemma_count_fits(ids, id_space);
    crate::postings::written_lists_read_back(lists, k, id_space);
    if ids.len() == 1 {
        assert(ids =~= seq![ids[0]]);
    }
}

/// A written segment can be merged: its terms, with the values and postings that were written for
/// its lists, lead to the lists.
pub proof fn written_segments_can_be_merged(
    victim: crate::joining::VictimTerms,
    lists: Seq<GramList>,
)
    requires
        crate::postings::lists_within(lists, victim.id_space),
        forall|k: int|
            0 <= k < lists.len() ==> #[trigger] crate::postings::list_error(
                lists,
                k,
                victim.id_space,
            ) is None,
        victim.postings@ == crate::postings::list_blocks(
            lists,
            lists.len() as int,
            victim.id_space,
        ),
        victim.postings_len == victim.postings@.len(),
        victim.terms@.len() == lists.len(),
        forall|t: int|
            0 <= t < lists.len() ==> (#[trigger] victim.terms@[t]).gram@ == lists[t].gram@
                && victim.terms@[t].packed == crate::postings::list_value(
                lists,
                t,
                victim.id_space,
            ) && victim.terms@[t].len is None,
    ensures
        crate::joining::victim_reads(crate::query::Strategy::Trigram, victim, lists),
{
    assert forall|t: int| 0 <= t < lists.len() implies {
        &&& (#[trigger] victim.terms@[t]).gram@ == lists[t].gram@
        &&& crate::compact::entry_ids(
            crate::query::Strategy::Trigram,
            victim.id_space,
            victim.postings_len,
            victim.postings@,
            victim.terms@[t].packed,
            victim.terms@[t].len,
        ) == Ok::<Seq<u32>, IndexError>(lists[t].ids@)
    } by {
        assert(crate::postings::list_error(lists, t, victim.id_space) is None);
        fixed_lists_read_back(lists, t, victim.id_space);
    }
}

/// Written delta blocks can be merged: the terms of a segment, with the values, lengths and blocks
/// that were written for its lists, lead to the lists.
pub proof fn written_delta_segments_can_be_merged(
    victim: crate::joining::VictimTerms,
    lists: Seq<GramList>,
)
    requires
        crate::postings::lists_within(lists, victim.id_space),
        forall|k: int| 0 <= k < lists.len() ==> #[trigger] delta_error(lists, k) is None,
        victim.postings@ == delta_blocks(lists, lists.len() as int),
        victim.postings_len == victim.postings@.len(),
        victim.terms@.len() == lists.len(),
        forall|t: int|
            0 <= t < lists.len() ==> (#[trigger] victim.terms@[t]).gram@ == lists[t].gram@
                && victim.terms@[t].packed == delta_value(lists, t).packed && victim.terms@[t].len
                == delta_value(lists, t).len,
    ensures
        crate::joining::victim_reads(crate::query::Strategy::Sparse, victim, lists),
{
    assert forall|t: int| 0 <= t < lists.len() implies {
        &&& (#[trigger] victim.terms@[t]).gram@ == lists[t].gram@
        &&& crate::compact::entry_ids(
            crate::query::Strategy::Sparse,
            victim.id_space,
            victim.postings_len,
            victim.postings@,
            victim.terms@[t].packed,
            victim.terms@[t].len,
        ) == Ok::<Seq<u32>, IndexError>(lists[t].ids@)
    } by {
        assert(delta_error(lists, t) is None);
        delta_lists_read_back(lists, t, victim.id_space);
    }
}

/// The bytes of the block of list `k`.
pub open spec fn delta_bytes(lists: Seq<GramList>, k: int) -> Seq<u8> {
    let start = delta_offset(lists, k) as int;
    delta_blocks(lists, lists.len() as int).subrange(start, start + delta_block(lists[k]).len())
}

/// A lookup of the gram of list `k` gives the list's value and the length of its block.
pub open spec fn delta_found<L: TermLookup>(terms: L, lists: Seq<GramList>, k: int) -> bool {
    terms.value(lists[k].gram@) == Ok::<Option<TermValue>, IndexError>(Some(delta_value(lists, k)))
}

/// Where the block of list `k` was read, it was decoded.
pub open spec fn delta_decoded(
    decoded: Map<u64, Vec<u32>>,
    lists: Seq<GramList>,
    k: int,
    id_space: u32,
) -> bool {
    let offset = delta_offset(lists, k) as u64;
    let count = lists[k].ids@.len();
    1 < count < id_space && decoded.contains_key(offset) ==> crate::delta_blocks::decoded(
        delta_bytes(lists, k),
        count as u32,
        id_space,
    ) == Ok::<Seq<u32>, IndexError>(decoded[offset]@)
}

/// A lookup of `gram` gives the value of list `k`.
pub open spec fn delta_found_by<L: TermLookup>(
    terms: L,
    lists: Seq<GramList>,
    k: int,
    gram: Seq<u8>,
) -> bool {
    terms.value(gram) matches Ok(Some(value)) && value.packed == delta_value(lists, k).packed
}

/// The lists were written as delta blocks, grams lead to the lists of their keys, and what was read
/// of the blocks was decoded.
pub open spec fn delta_written<L: TermLookup>(
    terms: L,
    lists: Seq<GramList>,
    decoded: Map<u64, Vec<u32>>,
    id_space: u32,
    key: spec_fn(Seq<u8>) -> Seq<u8>,
) -> bool {
    &&& forall|k: int| 0 <= k < lists.len() ==> #[trigger] delta_error(lists, k) is None
    &&& forall|k: int, gram: Seq<u8>|
        0 <= k < lists.len() && lists[k].gram@ == key(gram) ==> #[trigger] delta_found_by(
            terms,
            lists,
            k,
            gram,
        )
    &&& forall|k: int|
        0 <= k < lists.len() ==> #[trigger] delta_decoded(decoded, lists, k, id_space)
}

/// The bytes of a list's block are the block.
proof fn lemma_delta_bytes(lists: Seq<GramList>, k: int)
    requires
        0 <= k < lists.len(),
        lists[k].ids@.len() > 1,
    ensures
        delta_bytes(lists, k) == crate::delta_blocks::encoded(lists[k].ids@),
{
    let all = delta_blocks(lists, lists.len() as int);
    let before = delta_blocks(lists, k);
    let after = delta_blocks(lists, k + 1);
    let block = crate::delta_blocks::encoded(lists[k].ids@);
    lemma_delta_grow(lists, k + 1, lists.len() as int);
    assert(after == before + block);
    assert(all.subrange(0, after.len() as int) == after);
    assert(delta_bytes(lists, k) =~= all.subrange(0, after.len() as int).subrange(
        before.len() as int,
        after.len() as int,
    ));
    assert(after.subrange(before.len() as int, after.len() as int) =~= block);
}

/// Delta postings lose no document, whatever keys the lists have: where the list of a gram's key
/// has an id, a lookup of the gram leads to the id.
pub proof fn keyed_delta_postings_are_complete<L: TermLookup>(
    terms: L,
    lists: Seq<GramList>,
    decoded: Map<u64, Vec<u32>>,
    id_space: u32,
    key: spec_fn(Seq<u8>) -> Seq<u8>,
)
    requires
        crate::postings::lists_within(lists, id_space),
        delta_written(terms, lists, decoded, id_space, key),
    ensures
        crate::eval::postings_complete(
            terms,
            id_space,
            decoded,
            |id: u32, gram: Seq<u8>| crate::postings::listed(lists, id, key(gram)),
        ),
{
    let has = |id: u32, gram: Seq<u8>| crate::postings::listed(lists, id, key(gram));
    assert forall|id: u32, gram: Seq<u8>| id < id_space && #[trigger] has(id, gram) implies match terms.value(
        gram,
    ) {
        Err(_) => true,
        Ok(None) => false,
        Ok(Some(value)) => {
            let (offset, count) = crate::eval::posting_of(value.packed);
            if count == 1 {
                offset == id
            } else {
                count < id_space && decoded.contains_key(offset) ==> decoded[offset]@.contains(id)
            }
        },
    } by {
        let k = choose|k: int|
            0 <= k < lists.len() && (#[trigger] lists[k]).gram@ == key(gram)
                && lists[k].ids@.contains(id);
        let ids = lists[k].ids@;
        assert(lists[k].ids@.len() > 0);
        assert(delta_error(lists, k) is None);
        assert(delta_found_by(terms, lists, k, gram));
        assert(delta_decoded(decoded, lists, k, id_space));
        crate::eval::posting_round_trip(delta_offset(lists, k) as u64, ids.len());
        if ids.len() > 1 {
            lemma_count_fits(ids, id_space);
            lemma_delta_bytes(lists, k);
            crate::delta_blocks::delta_blocks_round_trip(ids, id_space);
        }
    }
}

/// Delta postings lose no document: where a list has an id, a lookup of its gram leads to the id.
pub proof fn delta_postings_are_complete<L: TermLookup>(
    terms: L,
    lists: Seq<GramList>,
    decoded: Map<u64, Vec<u32>>,
    id_space: u32,
)
    requires
        crate::postings::lists_within(lists, id_space),
        forall|k: int| 0 <= k < lists.len() ==> #[trigger] delta_error(lists, k) is None,
        forall|k: int| 0 <= k < lists.len() ==> #[trigger] delta_found(terms, lists, k),
        forall|k: int|
            0 <= k < lists.len() ==> #[trigger] delta_decoded(decoded, lists, k, id_space),
    ensures
        crate::eval::postings_complete(
            terms,
            id_space,
            decoded,
            |id: u32, gram: Seq<u8>| crate::postings::listed(lists, id, gram),
        ),
{
    let key = |gram: Seq<u8>| gram;
    assert forall|k: int, gram: Seq<u8>| 0 <= k < lists.len() && lists[k].gram@ == key(
        gram,
    ) implies #[trigger] delta_found_by(terms, lists, k, gram) by {
        assert(delta_found(terms, lists, k));
    }
    keyed_delta_postings_are_complete(terms, lists, decoded, id_space, key);
    assert((|id: u32, gram: Seq<u8>| crate::postings::listed(lists, id, key(gram))) =~= (|
        id: u32,
        gram: Seq<u8>,
    | crate::postings::listed(lists, id, gram)));
}

} // verus!
