//! Writing posting lists, and what an index of them finds.

use crate::candidate::CANDIDATE_BLOCK_BYTES;
use crate::error::IndexError;
use crate::eval::{pack_posting, TermLookup};
use crate::planner::{Grams, Trigrams};
use crate::posting_block::encode_posting_block;
use crate::query::{Query, Strategy};
use vstd::prelude::*;

verus! {

/// The bytes whose trigrams count for a candidate block of a document: those of the block, and as
/// many of the next as a trigram that starts in the block can reach.
pub open spec fn block_window(document: Seq<u8>, block: int) -> Seq<u8> {
    let start = CANDIDATE_BLOCK_BYTES * block;
    let end = CANDIDATE_BLOCK_BYTES * (block + 1) + 2;
    document.subrange(
        start,
        if end < document.len() {
            end
        } else {
            document.len() as int
        },
    )
}

/// The trigrams of a candidate block of a document.
pub fn block_trigrams(document: &[u8], block: usize) -> (grams: Vec<Vec<u8>>)
    requires
        CANDIDATE_BLOCK_BYTES * block <= document@.len(),
    ensures
        grams@.map_values(|gram: Vec<u8>| gram@) == crate::planner::trigrams_of(
            block_window(document@, block as int),
        ),
{
    let n: usize = document.len();
    let start: usize = CANDIDATE_BLOCK_BYTES * block;
    let end: usize = if n - start < CANDIDATE_BLOCK_BYTES + 2 {
        n
    } else {
        start + CANDIDATE_BLOCK_BYTES + 2
    };
    let window: &[u8] = vstd::slice::slice_subrange(document, start, end);
    assert(window@ == block_window(document@, block as int));
    Trigrams.grams(window)
}

/// Every trigram of a document counts for the block that it starts in.
pub proof fn trigrams_count_for_their_blocks(document: Seq<u8>, at: int)
    requires
        0 <= at,
        at + 3 <= document.len(),
    ensures
        crate::planner::trigrams_of(
            block_window(document, at / CANDIDATE_BLOCK_BYTES as int),
        ).contains(document.subrange(at, at + 3)),
{
    let block = at / CANDIDATE_BLOCK_BYTES as int;
    let start = CANDIDATE_BLOCK_BYTES * block;
    assert(start <= at < start + CANDIDATE_BLOCK_BYTES);
    let window = block_window(document, block);
    let k = at - start;
    assert(window.subrange(k, k + 3) =~= document.subrange(at, at + 3));
    assert(crate::planner::trigrams_of(window)[k] == document.subrange(at, at + 3));
}

/// A gram and the ids that have it.
#[derive(Debug)]
pub struct GramList {
    pub gram: Vec<u8>,
    pub ids: Vec<u32>,
}

/// Every list has ids, in ascending order and below `id_space`.
pub open spec fn lists_within(lists: Seq<GramList>, id_space: u32) -> bool {
    forall|k: int|
        0 <= k < lists.len() ==> (#[trigger] lists[k]).ids@.len() > 0
            && crate::posting_block::ids_within(lists[k].ids@, id_space as nat)
}

/// What a list adds to the blocks: nothing for a single id, which the value itself holds.
pub open spec fn list_block(list: GramList, id_space: u32) -> Seq<u8> {
    if list.ids@.len() == 1 {
        Seq::empty()
    } else {
        crate::posting_block::posting_block(list.ids@, id_space)
    }
}

/// The blocks of the first `n` lists.
pub open spec fn list_blocks(lists: Seq<GramList>, n: int, id_space: u32) -> Seq<u8>
    decreases n,
{
    if n <= 0 {
        Seq::empty()
    } else {
        list_blocks(lists, n - 1, id_space) + list_block(lists[n - 1], id_space)
    }
}

/// What the value of list `k` says besides its count: the one id, or where its block starts.
pub open spec fn list_offset(lists: Seq<GramList>, k: int, id_space: u32) -> nat {
    if lists[k].ids@.len() == 1 {
        lists[k].ids@[0] as nat
    } else {
        list_blocks(lists, k, id_space).len()
    }
}

/// What keeps list `k` from being written.
pub open spec fn list_error(lists: Seq<GramList>, k: int, id_space: u32) -> Option<IndexError> {
    let offset = list_offset(lists, k, id_space);
    let count = lists[k].ids@.len();
    if offset >= crate::eval::OFFSET_LIMIT {
        Some(IndexError::PostingOffset { offset: offset as u64 })
    } else if count > crate::eval::MAX_POSTING_COUNT {
        Some(IndexError::PostingCount { ids: count as usize })
    } else {
        None
    }
}

pub open spec fn list_value(lists: Seq<GramList>, k: int, id_space: u32) -> int {
    list_offset(lists, k, id_space) + lists[k].ids@.len() * crate::eval::OFFSET_LIMIT
}

/// The values that lead to the lists, and the blocks that the values point into.
pub fn write_postings(lists: &[GramList], id_space: u32) -> (written: Result<
    (Vec<u64>, Vec<u8>),
    IndexError,
>)
    requires
        lists_within(lists@, id_space),
    ensures
        match written {
            Ok((values, blocks)) => {
                &&& values@.len() == lists@.len()
                &&& forall|k: int|
                    0 <= k < values@.len() ==> #[trigger] values@[k] == list_value(
                        lists@,
                        k,
                        id_space,
                    ) && list_error(lists@, k, id_space) is None
                &&& blocks@ == list_blocks(lists@, lists@.len() as int, id_space)
            },
            Err(e) => exists|k: int|
                0 <= k < lists@.len() && #[trigger] list_error(lists@, k, id_space) == Some(e)
                    && forall|j: int|
                    0 <= j < k ==> #[trigger] list_error(lists@, j, id_space) is None,
        },
{
    let mut values: Vec<u64> = Vec::new();
    let mut blocks: Vec<u8> = Vec::new();
    let mut k: usize = 0;
    while k < lists.len()
        invariant
            lists_within(lists@, id_space),
            k <= lists@.len(),
            values@.len() == k,
            forall|j: int|
                0 <= j < k ==> #[trigger] values@[j] == list_value(lists@, j, id_space),
            forall|j: int| 0 <= j < k ==> #[trigger] list_error(lists@, j, id_space) is None,
            blocks@ == list_blocks(lists@, k as int, id_space),
        decreases lists.len() - k,
    {
        let list = &lists[k];
        assert(lists@[k as int].ids@.len() > 0);
        let offset: u64 = if list.ids.len() == 1 {
            list.ids[0] as u64
        } else {
            blocks.len() as u64
        };
        match pack_posting(offset, list.ids.len()) {
            Err(e) => {
                assert(list_error(lists@, k as int, id_space) == Some(e));
                return Err(e);
            },
            Ok(value) => {
                assert(list_error(lists@, k as int, id_space) is None);
                values.push(value);
            },
        }
        if list.ids.len() != 1 {
            encode_posting_block(&mut blocks, list.ids.as_slice(), id_space);
        }
        assert(blocks@ =~= list_blocks(lists@, k + 1, id_space));
        k = k + 1;
    }
    Ok((values, blocks))
}

/// The bytes that the value of list `k` points to.
pub open spec fn list_bytes(
    blocks: Seq<u8>,
    lists: Seq<GramList>,
    k: int,
    id_space: u32,
) -> Seq<u8> {
    let start = list_offset(lists, k, id_space) as int;
    blocks.subrange(
        start,
        start + crate::posting_block::block_len(lists[k].ids@.len() as u32, id_space),
    )
}

proof fn lemma_blocks_grow(lists: Seq<GramList>, m: int, n: int, id_space: u32)
    requires
        0 <= m <= n <= lists.len(),
    ensures
        list_blocks(lists, m, id_space).len() <= list_blocks(lists, n, id_space).len(),
        list_blocks(lists, n, id_space).subrange(0, list_blocks(lists, m, id_space).len() as int)
            == list_blocks(lists, m, id_space),
    decreases n - m,
{
    let short = list_blocks(lists, m, id_space);
    if m < n {
        lemma_blocks_grow(lists, m, n - 1, id_space);
        let middle = list_blocks(lists, n - 1, id_space);
        assert(list_blocks(lists, n, id_space).subrange(0, short.len() as int)
            =~= middle.subrange(0, short.len() as int));
    } else {
        assert(short.subrange(0, short.len() as int) =~= short);
    }
}

/// Written lists read back: a value gives the count, and the id or the block of the list, and the
/// block decodes to the list's ids.
pub proof fn written_lists_read_back(lists: Seq<GramList>, k: int, id_space: u32)
    requires
        lists_within(lists, id_space),
        0 <= k < lists.len(),
        list_error(lists, k, id_space) is None,
    ensures
        crate::eval::posting_of(list_value(lists, k, id_space) as u64) == (
            list_offset(lists, k, id_space) as u64,
            lists[k].ids@.len() as u32,
        ),
        lists[k].ids@.len() != 1 ==> {
            let blocks = list_blocks(lists, lists.len() as int, id_space);
            &&& list_offset(lists, k, id_space) + crate::posting_block::block_len(
                lists[k].ids@.len() as u32,
                id_space,
            ) <= blocks.len()
            &&& crate::posting_block::posting_ids(
                list_bytes(blocks, lists, k, id_space),
                lists[k].ids@.len() as u32,
                id_space,
            ) == Ok::<Seq<u32>, IndexError>(lists[k].ids@)
        },
{
    let ids = lists[k].ids@;
    assert(lists[k].ids@.len() > 0);
    crate::eval::posting_round_trip(list_offset(lists, k, id_space) as u64, ids.len());
    if ids.len() != 1 {
        let blocks = list_blocks(lists, lists.len() as int, id_space);
        let before = list_blocks(lists, k, id_space);
        let after = list_blocks(lists, k + 1, id_space);
        lemma_blocks_grow(lists, k + 1, lists.len() as int, id_space);
        crate::posting_block::posting_block_length(ids, id_space);
        crate::posting_block::posting_block_round_trip(ids, id_space);
        let block = crate::posting_block::posting_block(ids, id_space);
        assert(after == before + block);
        assert(list_bytes(blocks, lists, k, id_space) =~= block) by {
            assert(blocks.subrange(0, after.len() as int) == after);
            assert(list_bytes(blocks, lists, k, id_space) =~= blocks.subrange(
                0,
                after.len() as int,
            ).subrange(before.len() as int, after.len() as int));
        }
    }
}

/// One of the lists has the gram at the id.
pub open spec fn listed(lists: Seq<GramList>, id: u32, gram: Seq<u8>) -> bool {
    exists|k: int| 0 <= k < lists.len() && (#[trigger] lists[k]).gram@ == gram && lists[k].ids@.contains(id)
}

/// A lookup of the gram of list `k` gives the list's value.
pub open spec fn list_found<L: TermLookup>(
    terms: L,
    lists: Seq<GramList>,
    k: int,
    id_space: u32,
) -> bool {
    terms.value(lists[k].gram@) matches Ok(Some(value)) && value.packed == list_value(
        lists,
        k,
        id_space,
    )
}

/// The dictionary of the lists: each gram once, leading to its value.
pub open spec fn terms_of<L: TermLookup>(
    terms: L,
    lists: Seq<GramList>,
    id_space: u32,
) -> bool {
    forall|k: int| 0 <= k < lists.len() ==> #[trigger] list_found(terms, lists, k, id_space)
}

/// Where the block of list `k` was read, it was decoded.
pub open spec fn block_decoded(
    decoded: Map<u64, Vec<u32>>,
    lists: Seq<GramList>,
    k: int,
    id_space: u32,
) -> bool {
    let offset = list_offset(lists, k, id_space) as u64;
    let count = lists[k].ids@.len();
    1 < count < id_space && decoded.contains_key(offset) ==> crate::posting_block::posting_ids(
        list_bytes(list_blocks(lists, lists.len() as int, id_space), lists, k, id_space),
        count as u32,
        id_space,
    ) == Ok::<Seq<u32>, IndexError>(decoded[offset]@)
}

pub open spec fn blocks_decoded(
    decoded: Map<u64, Vec<u32>>,
    lists: Seq<GramList>,
    id_space: u32,
) -> bool {
    forall|k: int| 0 <= k < lists.len() ==> #[trigger] block_decoded(decoded, lists, k, id_space)
}

/// A lookup of `gram` gives the value of list `k`.
pub open spec fn list_found_by<L: TermLookup>(
    terms: L,
    lists: Seq<GramList>,
    k: int,
    gram: Seq<u8>,
    id_space: u32,
) -> bool {
    terms.value(gram) matches Ok(Some(value)) && value.packed == list_value(lists, k, id_space)
}

/// The lists were written as blocks of fixed width, grams lead to the lists of their keys, and what
/// was read of the blocks was decoded.
pub open spec fn fixed_written<L: TermLookup>(
    terms: L,
    lists: Seq<GramList>,
    decoded: Map<u64, Vec<u32>>,
    id_space: u32,
    key: spec_fn(Seq<u8>) -> Seq<u8>,
) -> bool {
    &&& forall|k: int| 0 <= k < lists.len() ==> #[trigger] list_error(lists, k, id_space) is None
    &&& forall|k: int, gram: Seq<u8>|
        0 <= k < lists.len() && lists[k].gram@ == key(gram) ==> #[trigger] list_found_by(
            terms,
            lists,
            k,
            gram,
            id_space,
        )
    &&& blocks_decoded(decoded, lists, id_space)
}

/// A written index misses nothing, whatever keys its lists have: where the list of a gram's key has
/// an id, a lookup of the gram leads to the id.
pub proof fn keyed_postings_are_complete<L: TermLookup>(
    terms: L,
    lists: Seq<GramList>,
    decoded: Map<u64, Vec<u32>>,
    id_space: u32,
    key: spec_fn(Seq<u8>) -> Seq<u8>,
)
    requires
        lists_within(lists, id_space),
        fixed_written(terms, lists, decoded, id_space, key),
    ensures
        crate::eval::postings_complete(
            terms,
            id_space,
            decoded,
            |id: u32, gram: Seq<u8>| listed(lists, id, key(gram)),
        ),
{
    let has = |id: u32, gram: Seq<u8>| listed(lists, id, key(gram));
    assert forall|id: u32, gram: Seq<u8>| id < id_space && #[trigger] has(id, gram) implies match terms.value(
        gram,
    ) {
        Err(_) => true,
        Ok(None) => false,
        Ok(Some(value)) => {
            let (offset, count) = crate::eval::posting_of(value.packed);
            if count == 1 {
                offset == id
            } else {
                count < id_space && decoded.contains_key(offset) ==> decoded[offset]@.contains(id)
            }
        },
    } by {
        let k = choose|k: int|
            0 <= k < lists.len() && (#[trigger] lists[k]).gram@ == key(gram)
                && lists[k].ids@.contains(id);
        assert(lists[k].ids@.len() > 0);
        assert(list_error(lists, k, id_space) is None);
        assert(list_found_by(terms, lists, k, gram, id_space));
        assert(block_decoded(decoded, lists, k, id_space));
        written_lists_read_back(lists, k, id_space);
    }
}

/// A written index misses nothing: where a list has an id, a lookup of its gram leads to the id.
pub proof fn written_postings_are_complete<L: TermLookup>(
    terms: L,
    lists: Seq<GramList>,
    decoded: Map<u64, Vec<u32>>,
    id_space: u32,
)
    requires
        lists_within(lists, id_space),
        forall|k: int| 0 <= k < lists.len() ==> #[trigger] list_error(lists, k, id_space) is None,
        terms_of(terms, lists, id_space),
        blocks_decoded(decoded, lists, id_space),
    ensures
        crate::eval::postings_complete(
            terms,
            id_space,
            decoded,
            |id: u32, gram: Seq<u8>| listed(lists, id, gram),
        ),
{
    let key = |gram: Seq<u8>| gram;
    assert forall|k: int, gram: Seq<u8>| 0 <= k < lists.len() && lists[k].gram@ == key(
        gram,
    ) implies #[trigger] list_found_by(terms, lists, k, gram, id_space) by {
        assert(list_found(terms, lists, k, id_space));
    }
    keyed_postings_are_complete(terms, lists, decoded, id_space, key);
    assert((|id: u32, gram: Seq<u8>| listed(lists, id, key(gram))) =~= (|id: u32, gram: Seq<u8>|
        listed(lists, id, gram)));
}

/// What an index is for: where the lists have all trigrams of a document, and the pattern that a
/// query was planned from matches somewhere in the document, the document is among those that
/// the query selects.
pub proof fn matching_documents_are_selected<L: TermLookup, E: crate::eval::Expand>(
    query: Query,
    nodes: Seq<crate::planner::NodeView>,
    matched: spec_fn(int, Seq<u8>) -> bool,
    text: Seq<u8>,
    document: Seq<u8>,
    id: u32,
    lists: Seq<GramList>,
    terms: L,
    decoded: Map<u64, Vec<u32>>,
    id_space: u32,
    strategy: Strategy,
    ex: E,
)
    requires
        crate::planner::breadth_first(crate::planner::places_of(nodes)),
        crate::planner::matches_nodes(nodes, matched),
        query.tree() == crate::planner::node_tree(
            |literal: Seq<u8>| crate::planner::trigrams_of(literal),
            nodes,
            0,
        ),
        matched(0, text),
        crate::planner::is_part(text, document),
        forall|gram: Seq<u8>|
            gram.len() == 3 && #[trigger] crate::planner::is_part(gram, document) ==> listed(
                lists,
                id,
                gram,
            ),
        lists_within(lists, id_space),
        forall|k: int| 0 <= k < lists.len() ==> #[trigger] list_error(lists, k, id_space) is None,
        terms_of(terms, lists, id_space),
        blocks_decoded(decoded, lists, id_space),
        id < id_space,
        ex.range(id).0 <= id <= ex.range(id).1,
    ensures
        crate::eval::resolution(query, id_space, strategy, terms) matches Ok(plan) ==> (
        crate::eval::select(plan, decoded, ex) matches Ok(selected) ==> (selected matches Some(ids)
            ==> ids.contains(id))),
{
    let grams = |literal: Seq<u8>| crate::planner::trigrams_of(literal);
    let has = |id: u32, gram: Seq<u8>| listed(lists, id, gram);
    let here = |gram: Seq<u8>| has(id, gram);
    crate::planner::trigrams_cover_documents(document);
    let part = |gram: Seq<u8>| crate::planner::is_part(gram, document);
    assert(crate::planner::covers(grams, document, here)) by {
        assert forall|literal: Seq<u8>, k: int|
            crate::planner::is_part(literal, document) && 0 <= k < grams(literal).len() implies here(
            #[trigger] grams(literal)[k],
        ) by {
            let gram = grams(literal)[k];
            assert(part(gram));
            assert(gram.len() == 3);
        }
    }
    crate::planner::planned_queries_keep_matches(
        query,
        grams,
        nodes,
        matched,
        text,
        document,
        here,
    );
    written_postings_are_complete(terms, lists, decoded, id_space);
    crate::eval::candidates_cover_matches(
        query,
        id_space,
        strategy,
        terms,
        decoded,
        ex,
        has,
        id,
    );
}

/// A trigram counts for a block if and only if it stands in the document at a byte of that block: blocks
/// without it are no candidates for it.
pub proof fn blocks_have_the_trigrams_that_start_in_them(
    document: Seq<u8>,
    block: int,
    gram: Seq<u8>,
)
    requires
        0 <= block,
        131072 * block <= document.len(),
    ensures
        crate::planner::trigrams_of(block_window(document, block)).contains(gram) <==> exists|at: int|
            131072 * block <= at < 131072 * (block + 1) && at + 3 <= document.len()
                && #[trigger] document.subrange(at, at + 3) == gram,
{
    let window = block_window(document, block);
    let start = 131072 * block;
    crate::planner::trigrams_are_all_stretches(window, gram);
    if exists|at: int|
        0 <= at && at + 3 <= window.len() && #[trigger] window.subrange(at, at + 3) == gram {
        let at = choose|at: int|
            0 <= at && at + 3 <= window.len() && #[trigger] window.subrange(at, at + 3) == gram;
        assert(document.subrange(start + at, start + at + 3) =~= window.subrange(at, at + 3));
    }
    if exists|at: int|
        131072 * block <= at < 131072 * (block + 1) && at + 3 <= document.len()
            && #[trigger] document.subrange(at, at + 3) == gram {
        let at = choose|at: int|
            131072 * block <= at < 131072 * (block + 1) && at + 3 <= document.len()
                && #[trigger] document.subrange(at, at + 3) == gram;
        let k = at - start;
        assert(window.subrange(k, k + 3) =~= document.subrange(at, at + 3));
    }
}

} // verus!
