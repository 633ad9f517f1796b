//! Compaction: which segments to merge, and what the merged segment holds.

use crate::candidate::get_block_document;
use crate::delta_blocks::decode_delta_blocks;
use crate::error::IndexError;
use crate::eval::unpack_posting;
use crate::format::{DeadSet, DocEntry, SegmentTables, SourceEntry};
use crate::ids::{contains_id, sort_dedup};
use crate::pack::{PackRequest, PackSlice};
use crate::posting_block::{decode_posting_block, posting_block_len};
use crate::query::Strategy;
use crate::text::text_less;
use crate::update::SEGMENT_COUNT_TARGET;
use vstd::prelude::*;

verus! {

/// Documents that a segment may hold.
pub const SEGMENT_DOC_CAP: u64 = 4000000;

/// Two segments are merged only if their postings, terms and tables together stay below these.
pub const MERGE_POSTINGS_CAP: u64 = 268435456;

pub const MERGE_TERMS_CAP: u64 = 67108864;

pub const MERGE_DOCS_CAP: u64 = 67108864;

/// What decides whether a segment is merged.
#[derive(Debug, Clone, Copy, PartialEq, Eq, Structural)]
pub struct SegmentSize {
    pub postings_len: u64,
    pub terms_len: u64,
    pub docs_len: u64,
    /// Documents that are not dead.
    pub live: u64,
}

/// Segment `i` and the next one may be merged.
pub open spec fn mergeable(sizes: Seq<SegmentSize>, i: int) -> bool {
    &&& sizes[i].postings_len + sizes[i + 1].postings_len <= MERGE_POSTINGS_CAP
    &&& sizes[i].terms_len + sizes[i + 1].terms_len <= MERGE_TERMS_CAP
    &&& sizes[i].docs_len + sizes[i + 1].docs_len <= MERGE_DOCS_CAP
    &&& sizes[i].live + sizes[i + 1].live <= SEGMENT_DOC_CAP
}

pub open spec fn live_together(sizes: Seq<SegmentSize>, i: int) -> int {
    sizes[i].live + sizes[i + 1].live
}

/// `victim` is the first of the two neighbours to merge: where there are too many segments, of the
/// pairs that may be merged the first with the fewest live documents.
pub open spec fn is_victim(sizes: Seq<SegmentSize>, victim: Option<usize>) -> bool {
    match victim {
        Some(v) => {
            &&& sizes.len() > SEGMENT_COUNT_TARGET
            &&& v + 1 < sizes.len()
            &&& mergeable(sizes, v as int)
            &&& forall|i: int|
                0 <= i < sizes.len() - 1 && #[trigger] mergeable(sizes, i) ==> live_together(
                    sizes,
                    v as int,
                ) <= live_together(sizes, i) && (i < v ==> live_together(sizes, v as int)
                    < live_together(sizes, i))
        },
        None => sizes.len() <= SEGMENT_COUNT_TARGET || forall|i: int|
            0 <= i < sizes.len() - 1 ==> !#[trigger] mergeable(sizes, i),
    }
}

/// The first of two neighbours to merge: where there are too many segments, the pair with the
/// fewest live documents among those that may be merged, the earliest of equals.
pub fn choose_victim(sizes: &[SegmentSize]) -> (victim: Option<usize>)
    ensures
        is_victim(sizes@, victim),
{
    if sizes.len() <= SEGMENT_COUNT_TARGET {
        return None;
    }
    let mut victim: Option<usize> = None;
    let mut least: u64 = 0;
    let mut i: usize = 0;
    while i < sizes.len() - 1
        invariant
            sizes.len() > SEGMENT_COUNT_TARGET,
            i <= sizes.len() - 1,
            match victim {
                Some(v) => {
                    &&& v < i
                    &&& mergeable(sizes@, v as int)
                    &&& least == live_together(sizes@, v as int)
                    &&& forall|k: int|
                        0 <= k < i && #[trigger] mergeable(sizes@, k) ==> least <= live_together(
                            sizes@,
                            k,
                        ) && (k < v ==> least < live_together(sizes@, k))
                },
                None => forall|k: int| 0 <= k < i ==> !#[trigger] mergeable(sizes@, k),
            },
        decreases sizes.len() - i,
    {
        let a: SegmentSize = sizes[i];
        let b: SegmentSize = sizes[i + 1];
        let fits: bool = a.postings_len.saturating_add(b.postings_len) <= MERGE_POSTINGS_CAP
            && a.terms_len.saturating_add(b.terms_len) <= MERGE_TERMS_CAP
            && a.docs_len.saturating_add(b.docs_len) <= MERGE_DOCS_CAP && a.live.saturating_add(
            b.live,
        ) <= SEGMENT_DOC_CAP;
        assert(fits == mergeable(sizes@, i as int));
        if fits {
            let together: u64 = a.live + b.live;
            let better: bool = match victim {
                Some(_) => together < least,
                None => true,
            };
            if better {
                victim = Some(i);
                least = together;
            }
        }
        i = i + 1;
    }
    victim
}

/// The document that holds a posting id.
pub open spec fn posting_document(strategy: Strategy, id: u32, bases: Seq<u32>) -> int {
    match strategy {
        Strategy::Sparse => id as int,
        Strategy::Trigram => choose|d: int| crate::candidate::holds_block(bases, d, id),
    }
}

/// A posting id of a segment in the merged segment: `None` where its document is dropped. A
/// block keeps its place within its document.
pub open spec fn remapped(
    strategy: Strategy,
    id: u32,
    remap: Seq<Option<u32>>,
    old_bases: Seq<u32>,
    new_bases: Seq<u32>,
) -> Result<Option<u32>, IndexError> {
    let document = posting_document(strategy, id, old_bases);
    if document >= remap.len() {
        Err(IndexError::PostingOutsideSegment)
    } else {
        match remap[document] {
            None => Ok(None),
            Some(new_document) => match strategy {
                Strategy::Sparse => Ok(Some(new_document)),
                Strategy::Trigram => if new_document >= new_bases.len() {
                    Err(IndexError::RemapBounds)
                } else if new_bases[new_document as int] + (id - old_bases[document]) > u32::MAX {
                    Err(IndexError::IdOutOfBounds { id })
                } else {
                    Ok(
                        Some(
                            (new_bases[new_document as int] + (id - old_bases[document])) as u32,
                        ),
                    )
                },
            },
        }
    }
}

/// The bases of a trigram segment: one more than it has documents, from zero up.
pub open spec fn bases_for(strategy: Strategy, bases: Seq<u32>) -> bool {
    strategy == Strategy::Trigram ==> bases.len() > 0 && crate::candidate::valid_bases(bases)
}

pub proof fn lemma_block_unique(bases: Seq<u32>, id: u32, d: int)
    requires
        crate::ids::non_descending(bases),
        crate::candidate::holds_block(bases, d, id),
    ensures
        posting_document(Strategy::Trigram, id, bases) == d,
{
    let c = posting_document(Strategy::Trigram, id, bases);
    assert(crate::candidate::holds_block(bases, c, id));
    if c < d {
        assert(bases[c + 1] <= bases[d]);
    } else if d < c {
        assert(bases[d + 1] <= bases[c]);
    }
}

/// Where a posting id goes in a merge: nowhere if its document is dead.
pub fn remap_posting_id(
    strategy: Strategy,
    id: u32,
    remap: &[Option<u32>],
    old_bases: &[u32],
    new_bases: &[u32],
) -> (new_id: Result<Option<u32>, IndexError>)
    requires
        bases_for(strategy, old_bases@),
    ensures
        new_id == remapped(strategy, id, remap@, old_bases@, new_bases@),
{
    match strategy {
        Strategy::Sparse => {
            if id as u64 >= remap.len() as u64 {
                return Err(IndexError::PostingOutsideSegment);
            }
            Ok(remap[id as usize])
        },
        Strategy::Trigram => {
            let document: usize = get_block_document(id, old_bases);
            proof {
                lemma_block_unique(old_bases@, id, document as int);
            }
            if document >= remap.len() {
                return Err(IndexError::PostingOutsideSegment);
            }
            match remap[document] {
                None => Ok(None),
                Some(new_document) => {
                    if new_document as u64 >= new_bases.len() as u64 {
                        return Err(IndexError::RemapBounds);
                    }
                    let within: u32 = id - old_bases[document];
                    match new_bases[new_document as usize].checked_add(within) {
                        Some(new_id) => Ok(Some(new_id)),
                        None => Err(IndexError::IdOutOfBounds { id }),
                    }
                },
            }
        },
    }
}

/// The ids that are left of the first `n`, in the merged segment.
pub open spec fn remapped_all(
    strategy: Strategy,
    ids: Seq<u32>,
    remap: Seq<Option<u32>>,
    old_bases: Seq<u32>,
    new_bases: Seq<u32>,
    n: int,
) -> Result<Seq<u32>, IndexError>
    decreases n,
{
    if n <= 0 {
        Ok(Seq::empty())
    } else {
        match remapped_all(strategy, ids, remap, old_bases, new_bases, n - 1) {
            Err(e) => Err(e),
            Ok(front) => match remapped(strategy, ids[n - 1], remap, old_bases, new_bases) {
                Err(e) => Err(e),
                Ok(None) => Ok(front),
                Ok(Some(id)) => Ok(front.push(id)),
            },
        }
    }
}

proof fn lemma_remap_error(
    strategy: Strategy,
    ids: Seq<u32>,
    remap: Seq<Option<u32>>,
    old_bases: Seq<u32>,
    new_bases: Seq<u32>,
    n: int,
    m: int,
    e: IndexError,
)
    requires
        0 <= n <= m,
        remapped_all(strategy, ids, remap, old_bases, new_bases, n) == Err::<Seq<u32>, IndexError>(
            e,
        ),
    ensures
        remapped_all(strategy, ids, remap, old_bases, new_bases, m) == Err::<Seq<u32>, IndexError>(
            e,
        ),
    decreases m - n,
{
    if n < m {
        lemma_remap_error(strategy, ids, remap, old_bases, new_bases, n, m - 1, e);
    }
}

/// Bytes of a gram as the key of its term.
pub open spec fn gram_bytes(strategy: Strategy) -> nat {
    match strategy {
        Strategy::Trigram => 3,
        Strategy::Sparse => 8,
    }
}

/// How many bytes the grams of a strategy have in a dictionary.
pub fn key_bytes(strategy: Strategy) -> (width: usize)
    ensures
        width == gram_bytes(strategy),
{
    match strategy {
        Strategy::Trigram => 3,
        Strategy::Sparse => 8,
    }
}

/// A gram as a number, its first byte the highest.
pub open spec fn gram_key(gram: Seq<u8>) -> nat {
    crate::bits::be_value(gram)
}

/// Where the postings of an entry lie.
pub open spec fn entry_range(
    strategy: Strategy,
    id_space: u32,
    postings_len: u64,
    postings: Seq<u8>,
    offset: u64,
    count: u32,
    len: Option<u64>,
) -> Result<(int, int), IndexError> {
    if count > id_space {
        Err(IndexError::PostingCountBounds)
    } else if (strategy == Strategy::Sparse) != (len is Some) {
        Err(IndexError::PostingLengthPresence)
    } else {
        let size = match len {
            Some(len) => len as int,
            None => crate::posting_block::block_len(count, id_space) as int,
        };
        if offset + size > u64::MAX {
            Err(IndexError::PostingLengthOverflow)
        } else if offset + size > postings_len {
            Err(IndexError::PostingBounds)
        } else if offset + size > postings.len() {
            Err(IndexError::PostingsCut)
        } else {
            Ok((offset as int, offset + size))
        }
    }
}

/// The ids of an entry's postings.
pub open spec fn entry_ids(
    strategy: Strategy,
    id_space: u32,
    postings_len: u64,
    postings: Seq<u8>,
    packed: u64,
    len: Option<u64>,
) -> Result<Seq<u32>, IndexError> {
    let (offset, count) = crate::eval::posting_of(packed);
    if count == 1 {
        if offset > u32::MAX {
            Err(IndexError::SingletonOutOfRange { offset, id_space })
        } else {
            Ok(seq![offset as u32])
        }
    } else {
        match entry_range(strategy, id_space, postings_len, postings, offset, count, len) {
            Err(e) => Err(e),
            Ok((start, end)) => match strategy {
                Strategy::Sparse => crate::delta_blocks::decoded(
                    postings.subrange(start, end),
                    count,
                    id_space,
                ),
                Strategy::Trigram => crate::posting_block::posting_ids(
                    postings.subrange(start, end),
                    count,
                    id_space,
                ),
            },
        }
    }
}

/// What is left of a term's postings in the merged segment: the ids, or why they cannot be read.
pub open spec fn live_entry_ids(
    strategy: Strategy,
    id_space: u32,
    postings_len: u64,
    postings: Seq<u8>,
    remap: Seq<Option<u32>>,
    old_bases: Seq<u32>,
    new_bases: Seq<u32>,
    gram: Seq<u8>,
    packed: u64,
    len: Option<u64>,
) -> Result<Seq<u32>, IndexError> {
    if crate::eval::posting_of(packed).1 == 0 {
        Err(IndexError::EmptyPosting)
    } else if gram.len() != gram_bytes(strategy) {
        Err(IndexError::GramWidth)
    } else {
        match entry_ids(strategy, id_space, postings_len, postings, packed, len) {
            Err(e) => Err(e),
            Ok(ids) => remapped_all(
                strategy,
                ids,
                remap,
                old_bases,
                new_bases,
                ids.len() as int,
            ),
        }
    }
}

fn read_entry(
    strategy: Strategy,
    id_space: u32,
    postings_len: u64,
    postings: &[u8],
    packed: u64,
    len: Option<u64>,
) -> (ids: Result<Vec<u32>, IndexError>)
    ensures
        match ids {
            Ok(list) => entry_ids(strategy, id_space, postings_len, postings@, packed, len) == Ok::<
                Seq<u32>,
                IndexError,
            >(list@),
            Err(e) => entry_ids(strategy, id_space, postings_len, postings@, packed, len) == Err::<
                Seq<u32>,
                IndexError,
            >(e),
        },
{
    let (offset, count): (u64, u32) = unpack_posting(packed);
    if count == 1 {
        if offset > u32::MAX as u64 {
            return Err(IndexError::SingletonOutOfRange { offset, id_space });
        }
        let mut ids: Vec<u32> = Vec::new();
        ids.push(offset as u32);
        assert(ids@ =~= seq![offset as u32]);
        return Ok(ids);
    }
    if count > id_space {
        return Err(IndexError::PostingCountBounds);
    }
    let size: u64 = match (strategy, len) {
        (Strategy::Sparse, Some(len)) => len,
        (Strategy::Trigram, None) => posting_block_len(count, id_space),
        _ => return Err(IndexError::PostingLengthPresence),
    };
    let end: u64 = match offset.checked_add(size) {
        Some(end) => end,
        None => return Err(IndexError::PostingLengthOverflow),
    };
    if end > postings_len {
        return Err(IndexError::PostingBounds);
    }
    if end > postings.len() as u64 {
        return Err(IndexError::PostingsCut);
    }
    let block = vstd::slice::slice_subrange(postings, offset as usize, end as usize);
    match strategy {
        Strategy::Sparse => decode_delta_blocks(block, count, id_space),
        Strategy::Trigram => decode_posting_block(block, count, id_space),
    }
}

/// The records of a term in the merged segment: its key, and the ids that are left, ascending.
pub fn live_entry(
    strategy: Strategy,
    id_space: u32,
    postings_len: u64,
    postings: &[u8],
    remap: &[Option<u32>],
    old_bases: &[u32],
    new_bases: &[u32],
    gram: &[u8],
    packed: u64,
    len: Option<u64>,
) -> (entry: Result<(u64, Vec<u32>), IndexError>)
    requires
        bases_for(strategy, old_bases@),
    ensures
        ({
            let expected = live_entry_ids(
                strategy,
                id_space,
                postings_len,
                postings@,
                remap@,
                old_bases@,
                new_bases@,
                gram@,
                packed,
                len,
            );
            match entry {
                Ok((key, ids)) => expected is Ok && key == gram_key(gram@) && crate::ids::ascending(
                    ids@,
                ) && crate::ids::id_set(ids@) == crate::ids::id_set(expected->Ok_0),
                Err(e) => expected == Err::<Seq<u32>, IndexError>(e),
            }
        }),
{
    let (_, count): (u64, u32) = unpack_posting(packed);
    if count == 0 {
        return Err(IndexError::EmptyPosting);
    }
    if gram.len() != key_bytes(strategy) {
        return Err(IndexError::GramWidth);
    }
    let mut key: u64 = 0;
    let mut b: usize = 0;
    assert(gram@.take(0) =~= Seq::<u8>::empty());
    proof {
        lemma_key_empty();
    }
    while b < gram.len()
        invariant
            b <= gram.len() <= 8,
            key == gram_key(gram@.take(b as int)),
        decreases gram.len() - b,
    {
        proof {
            lemma_key_push(gram@.take(b as int), gram@[b as int]);
            assert(gram@.take(b + 1) =~= gram@.take(b as int).push(gram@[b as int]));
            lemma_key_bound(gram@.take(b as int), b as nat);
        }
        key = key * 256 + gram[b] as u64;
        b = b + 1;
    }
    assert(gram@.take(b as int) =~= gram@);
    let ids = match read_entry(strategy, id_space, postings_len, postings, packed, len) {
        Ok(ids) => ids,
        Err(e) => return Err(e),
    };
    let mut left: Vec<u32> = Vec::new();
    let mut i: usize = 0;
    assert(left@ =~= Seq::<u32>::empty());
    while i < ids.len()
        invariant
            i <= ids.len(),
            bases_for(strategy, old_bases@),
            entry_ids(strategy, id_space, postings_len, postings@, packed, len) == Ok::<
                Seq<u32>,
                IndexError,
            >(ids@),
            crate::eval::posting_of(packed).1 > 0,
            gram@.len() == gram_bytes(strategy),
            remapped_all(strategy, ids@, remap@, old_bases@, new_bases@, i as int) == Ok::<
                Seq<u32>,
                IndexError,
            >(left@),
        decreases ids.len() - i,
    {
        match remap_posting_id(strategy, ids[i], remap, old_bases, new_bases) {
            Ok(None) => {},
            Ok(Some(id)) => left.push(id),
            Err(e) => {
                proof {
                    lemma_remap_error(
                        strategy,
                        ids@,
                        remap@,
                        old_bases@,
                        new_bases@,
                        i + 1,
                        ids@.len() as int,
                        e,
                    );
                }
                return Err(e);
            },
        }
        i = i + 1;
    }
    Ok((key, sort_dedup(left)))
}

proof fn lemma_key_empty()
    ensures
        gram_key(Seq::<u8>::empty()) == 0,
{
    assert(Seq::<u8>::empty().reverse() =~= Seq::<u8>::empty());
    crate::bits::lemma_le_value_bound(Seq::<u8>::empty());
    vstd::arithmetic::power2::lemma2_to64();
}

proof fn lemma_key_push(gram: Seq<u8>, b: u8)
    ensures
        gram_key(gram.push(b)) == gram_key(gram) * 256 + b,
{
    assert(gram.push(b).reverse() =~= seq![b] + gram.reverse());
    crate::bits::lemma_le_value_first(gram.push(b).reverse());
    assert(gram.push(b).reverse().skip(1) =~= gram.reverse());
}

proof fn lemma_key_bound(gram: Seq<u8>, n: nat)
    requires
        gram.len() == n,
        n < 8,
    ensures
        gram_key(gram) < 0x100_0000_0000_0000,
{
    crate::bits::lemma_le_value_bound(gram.reverse());
    vstd::arithmetic::power2::lemma2_to64();
    vstd::arithmetic::power2::lemma2_to64_rest();
    if n < 7 {
        vstd::arithmetic::power2::lemma_pow2_strictly_increases(8 * n, 56);
    }
}

/// The key of a source.
pub open spec fn key_at(tables: Seq<SegmentTables>, pair: (usize, u32)) -> Seq<char> {
    tables[pair.0 as int].sources@[pair.1 as int].key@
}

/// The list holds every source that is not dead, once, in key order.
pub open spec fn merge_order_of(
    order: Seq<(usize, u32)>,
    tables: Seq<SegmentTables>,
    dead: Seq<DeadSet>,
) -> bool {
    &&& forall|a: int, b: int|
        0 <= a < b < order.len() ==> #[trigger] order[a] != #[trigger] order[b]
            && !crate::text::text_before(key_at(tables, order[b]), key_at(tables, order[a]))
    &&& forall|a: int|
        0 <= a < order.len() ==> crate::update::not_dead(
            tables,
            dead,
            (#[trigger] order[a]).0 as int,
            order[a].1 as int,
        )
    &&& forall|s: int, i: int| #[trigger]
        crate::update::not_dead(tables, dead, s, i) ==> order.contains((s as usize, i as u32))
}

/// What is known while the sources are merged: `heads` says how far each segment is taken.
spec fn merging(
    order: Seq<(usize, u32)>,
    heads: Seq<usize>,
    tables: Seq<SegmentTables>,
    dead: Seq<DeadSet>,
) -> bool {
    &&& heads.len() == tables.len()
    &&& forall|s: int| 0 <= s < heads.len() ==> #[trigger] heads[s] <= tables[s].sources@.len()
    &&& forall|a: int, b: int|
        0 <= a < b < order.len() ==> #[trigger] order[a] != #[trigger] order[b]
            && !crate::text::text_before(key_at(tables, order[b]), key_at(tables, order[a]))
    &&& forall|a: int|
        0 <= a < order.len() ==> crate::update::not_dead(
            tables,
            dead,
            (#[trigger] order[a]).0 as int,
            order[a].1 as int,
        ) && order[a].1 < heads[order[a].0 as int]
    &&& forall|s: int, i: int| #[trigger]
        crate::update::not_dead(tables, dead, s, i) && i < heads[s] ==> order.contains(
            (s as usize, i as u32),
        )
    &&& forall|a: int, s: int, i: int|
        0 <= a < order.len() && 0 <= s < tables.len() && heads[s] <= i < tables[s].sources@.len()
            ==> !crate::text::text_before(
            (#[trigger] tables[s].sources@[i]).key@,
            key_at(tables, #[trigger] order[a]),
        )
}

/// Sources that are still to be taken.
spec fn still_to_take(heads: Seq<usize>, tables: Seq<SegmentTables>, n: int) -> int
    decreases n,
{
    if n <= 0 {
        0
    } else {
        still_to_take(heads, tables, n - 1) + (tables[n - 1].sources@.len() - heads[n - 1])
    }
}

proof fn lemma_take_one(
    heads: Seq<usize>,
    more: Seq<usize>,
    tables: Seq<SegmentTables>,
    s: int,
    n: int,
)
    requires
        0 <= s < heads.len(),
        heads.len() == more.len() == tables.len(),
        0 <= n <= heads.len(),
        forall|k: int| 0 <= k < heads.len() && k != s ==> #[trigger] more[k] == heads[k],
        more[s] == heads[s] + 1,
        forall|k: int| 0 <= k < heads.len() ==> #[trigger] more[k] <= tables[k].sources@.len(),
    ensures
        still_to_take(more, tables, n) == still_to_take(heads, tables, n) - if s < n {
            1int
        } else {
            0int
        },
        still_to_take(more, tables, n) >= 0,
    decreases n,
{
    if n > 0 {
        lemma_take_one(heads, more, tables, s, n - 1);
        assert(more[n - 1] <= tables[n - 1].sources@.len());
    }
}

/// The sources that are not dead, in key order.
pub fn merge_order(tables: &[SegmentTables], dead: &[DeadSet]) -> (order: Vec<(usize, u32)>)
    requires
        crate::update::segments_valid(tables@, dead@),
    ensures
        merge_order_of(order@, tables@, dead@),
{
    let mut heads: Vec<usize> = Vec::new();
    let mut s: usize = 0;
    while s < tables.len()
        invariant
            s <= tables.len(),
            heads@.len() == s,
            forall|k: int| 0 <= k < s ==> #[trigger] heads@[k] == 0,
        decreases tables.len() - s,
    {
        heads.push(0);
        s = s + 1;
    }
    let mut order: Vec<(usize, u32)> = Vec::new();
    loop
        invariant
            tables.len() == tables@.len(),
            crate::update::segments_valid(tables@, dead@),
            merging(order@, heads@, tables@, dead@),
        ensures
            merging(order@, heads@, tables@, dead@),
            forall|k: int| 0 <= k < tables@.len() ==> heads@[k] == (#[trigger] tables@[k]).sources@.len(),
        decreases still_to_take(heads@, tables@, tables@.len() as int),
    {
        let mut best: Option<usize> = None;
        let mut k: usize = 0;
        while k < tables.len()
            invariant
                k <= tables.len(),
                crate::update::segments_valid(tables@, dead@),
                merging(order@, heads@, tables@, dead@),
                match best {
                    Some(b) => {
                        &&& b < k
                        &&& heads@[b as int] < tables@[b as int].sources@.len()
                        &&& forall|j: int|
                            0 <= j < k && heads@[j] < (#[trigger] tables@[j]).sources@.len()
                                ==> !crate::text::text_before(
                                tables@[j].sources@[heads@[j] as int].key@,
                                tables@[b as int].sources@[heads@[b as int] as int].key@,
                            )
                    },
                    None => forall|j: int|
                        0 <= j < k ==> heads@[j] == (#[trigger] tables@[j]).sources@.len(),
                },
            decreases tables.len() - k,
        {
            let at: usize = heads[k];
            if at < tables[k].sources.len() {
                let better: bool = match best {
                    Some(b) => text_less(
                        tables[k].sources[at].key.as_str(),
                        tables[b].sources[heads[b]].key.as_str(),
                    ),
                    None => true,
                };
                proof {
                    let key = tables@[k as int].sources@[at as int].key@;
                    crate::text::lemma_before_irreflexive(crate::text::utf8(key));
                    if let Some(b) = best {
                        let old_key = tables@[b as int].sources@[heads@[b as int] as int].key@;
                        if better {
                            assert forall|j: int|
                                0 <= j < k && heads@[j] < (#[trigger] tables@[j]).sources@.len()
                                implies !crate::text::text_before(
                                tables@[j].sources@[heads@[j] as int].key@,
                                key,
                            ) by {
                                let other = tables@[j].sources@[heads@[j] as int].key@;
                                if crate::text::text_before(other, key) {
                                    crate::text::lemma_before_transitive(
                                        crate::text::utf8(other),
                                        crate::text::utf8(key),
                                        crate::text::utf8(old_key),
                                    );
                                }
                            }
                        }
                    }
                }
                if better {
                    best = Some(k);
                }
            }
            k = k + 1;
        }
        let b: usize = match best {
            Some(b) => b,
            None => {
                break;
            },
        };
        let at: usize = heads[b];
        let ghost old_heads = heads@;
        let ghost old_order = order@;
        assert(crate::format::table_error(tables@[b as int]) is None);
        assert(tables@[b as int].sources@.len() <= u32::MAX);
        if !contains_id(dead[b].sources.as_slice(), at as u32) {
            order.push((b, at as u32));
        }
        heads.set(b, at + 1);
        proof {
            lemma_take_one(old_heads, heads@, tables@, b as int, tables@.len() as int);
            lemma_merge_step(old_order, order@, old_heads, heads@, tables@, dead@, b as int);
        }
    }
    proof {
        assert forall|s: int, i: int| #[trigger]
            crate::update::not_dead(tables@, dead@, s, i) implies order@.contains(
            (s as usize, i as u32),
        ) by {
            assert(heads@[s] == tables@[s].sources@.len());
        }
    }
    order
}

proof fn lemma_merge_step(
    order: Seq<(usize, u32)>,
    more: Seq<(usize, u32)>,
    heads: Seq<usize>,
    next: Seq<usize>,
    tables: Seq<SegmentTables>,
    dead: Seq<DeadSet>,
    b: int,
)
    requires
        crate::update::segments_valid(tables, dead),
        merging(order, heads, tables, dead),
        0 <= b < tables.len() <= usize::MAX,
        heads[b] < tables[b].sources@.len(),
        forall|j: int|
            0 <= j < tables.len() && heads[j] < (#[trigger] tables[j]).sources@.len()
                ==> !crate::text::text_before(
                tables[j].sources@[heads[j] as int].key@,
                tables[b].sources@[heads[b] as int].key@,
            ),
        next == heads.update(b, (heads[b] + 1) as usize),
        next[b] == heads[b] + 1,
        more == if crate::update::not_dead(tables, dead, b, heads[b] as int) {
            order.push((b as usize, heads[b] as u32))
        } else {
            order
        },
    ensures
        merging(more, next, tables, dead),
{
    let at = heads[b] as int;
    let key = tables[b].sources@[at].key@;
    assert(crate::format::table_error(tables[b]) is None);
    assert(tables[b].sources@.len() <= u32::MAX);
    assert forall|s: int| 0 <= s < next.len() implies #[trigger] next[s]
        <= tables[s].sources@.len() by {
        assert(heads[s] <= tables[s].sources@.len());
    }
    assert forall|s: int, i: int| 0 <= s < tables.len() && next[s] <= i
        < tables[s].sources@.len() implies !crate::text::text_before(
        (#[trigger] tables[s].sources@[i]).key@,
        key,
    ) by {
        let head = heads[s] as int;
        let other = tables[s].sources@[head].key@;
        let far = tables[s].sources@[i].key@;
        assert(crate::format::table_error(tables[s]) is None);
        crate::text::lemma_before_irreflexive(crate::text::utf8(key));
        if i > head {
            crate::format::valid_sources_ordered(tables[s], head, i);
            if crate::text::text_before(far, key) {
                crate::text::lemma_before_transitive(
                    crate::text::utf8(other),
                    crate::text::utf8(far),
                    crate::text::utf8(key),
                );
            }
        }
    }
    assert forall|a: int, s: int, i: int| 0 <= a < more.len() && 0 <= s < tables.len() && next[s]
        <= i < tables[s].sources@.len() implies !crate::text::text_before(
        (#[trigger] tables[s].sources@[i]).key@,
        key_at(tables, #[trigger] more[a]),
    ) by {
        if a < order.len() {
            assert(more[a] == order[a]);
            assert(heads[s] <= i);
        }
    }
    assert forall|a: int, c: int| 0 <= a < c < more.len() implies #[trigger] more[a]
        != #[trigger] more[c] && !crate::text::text_before(
        key_at(tables, more[c]),
        key_at(tables, more[a]),
    ) by {
        assert(more[a] == order[a]);
        if c < order.len() {
            assert(more[c] == order[c]);
        } else {
            assert(order[a].1 < heads[order[a].0 as int]);
            assert(!crate::text::text_before(
                tables[b].sources@[at].key@,
                key_at(tables, order[a]),
            ));
        }
    }
    assert forall|a: int| 0 <= a < more.len() implies crate::update::not_dead(
        tables,
        dead,
        (#[trigger] more[a]).0 as int,
        more[a].1 as int,
    ) && more[a].1 < next[more[a].0 as int] by {
        if a < order.len() {
            assert(more[a] == order[a]);
        }
    }
    assert forall|s: int, i: int| #[trigger] crate::update::not_dead(tables, dead, s, i) && i
        < next[s] implies more.contains((s as usize, i as u32)) by {
        if s == b && i == at {
            assert(more[order.len() as int] == (b as usize, at as u32));
        } else {
            assert(i < heads[s]);
            assert(order.contains((s as usize, i as u32)));
            let a = choose|a: int| 0 <= a < order.len() && order[a] == (s as usize, i as u32);
            assert(more[a] == order[a]);
        }
    }
}

/// Documents `first..end` of segment `s` that are not dead.
pub open spec fn kept_docs(dead: DeadSet, s: usize, first: int, end: int) -> Seq<(usize, u32)>
    decreases end - first,
{
    if end <= first {
        Seq::empty()
    } else if dead.documents@.contains((end - 1) as u32) {
        kept_docs(dead, s, first, end - 1)
    } else {
        kept_docs(dead, s, first, end - 1).push((s, (end - 1) as u32))
    }
}

/// The documents of the first `n` sources of the order, as they follow one another in the merged
/// segment.
pub open spec fn merged_docs(
    order: Seq<(usize, u32)>,
    tables: Seq<SegmentTables>,
    dead: Seq<DeadSet>,
    n: int,
) -> Seq<(usize, u32)>
    decreases n,
{
    if n <= 0 {
        Seq::empty()
    } else {
        let (s, i) = order[n - 1];
        let source = tables[s as int].sources@[i as int];
        merged_docs(order, tables, dead, n - 1) + kept_docs(
            dead[s as int],
            s,
            source.first_doc as int,
            source.first_doc + source.doc_count,
        )
    }
}

/// The document as it was, but for the source it names.
pub open spec fn doc_moved(new: DocEntry, old: DocEntry, source_id: int) -> bool {
    &&& new.display_key@ == old.display_key@
    &&& new.source_id == source_id
    &&& match (new.member_path, old.member_path) {
        (Some(a), Some(b)) => a@ == b@,
        (None, None) => true,
        _ => false,
    }
    &&& new.decoded_size == old.decoded_size
    &&& new.first_block == old.first_block
    &&& new.block_offset == old.block_offset
    &&& new.max_line_len == old.max_line_len
    &&& new.block_newlines@ == old.block_newlines@
}

/// The source as it was, but for its documents.
pub open spec fn source_moved(new: SourceEntry, old: SourceEntry, first: int, count: int) -> bool {
    &&& new.key@ == old.key@
    &&& new.version@ == old.version@
    &&& new.encoded_size == old.encoded_size
    &&& new.encoding == old.encoding
    &&& new.first_doc == first
    &&& new.doc_count == count
    &&& new.failed == old.failed
    &&& new.retry == old.retry
}

/// What a merged segment is made of.
#[derive(Debug)]
pub struct MergePlan {
    /// Its sources and documents, without pack coordinates of its own yet.
    pub tables: SegmentTables,
    /// Segment and id of each source.
    pub order: Vec<(usize, u32)>,
    /// Segment and id of each document.
    pub documents: Vec<(usize, u32)>,
    /// The new id of each document of each segment.
    pub remaps: Vec<Vec<Option<u32>>>,
}

/// The tables hold the sources and documents in their new order.
pub open spec fn merged_tables(
    merged: SegmentTables,
    order: Seq<(usize, u32)>,
    tables: Seq<SegmentTables>,
    dead: Seq<DeadSet>,
    n: int,
) -> bool {
    let docs = merged_docs(order, tables, dead, n);
    &&& merged.sources@.len() == n
    &&& merged.documents@.len() == docs.len()
    &&& merged.blocks@.len() == 0
    &&& forall|k: int|
        0 <= k < n ==> source_moved(
            #[trigger] merged.sources@[k],
            tables[order[k].0 as int].sources@[order[k].1 as int],
            merged_docs(order, tables, dead, k).len() as int,
            merged_docs(order, tables, dead, k + 1).len() - merged_docs(
                order,
                tables,
                dead,
                k,
            ).len(),
        )
    &&& forall|m: int|
        0 <= m < docs.len() ==> exists|k: int|
            #![trigger order[k]]
            0 <= k < n && merged_docs(order, tables, dead, k).len() <= m < merged_docs(
                order,
                tables,
                dead,
                k + 1,
            ).len() && doc_moved(
                #[trigger] merged.documents@[m],
                tables[docs[m].0 as int].documents@[docs[m].1 as int],
                k,
            )
}

/// The remaps send each document to its place, and the dropped ones nowhere.
pub open spec fn remaps_of(
    remaps: Seq<Vec<Option<u32>>>,
    docs: Seq<(usize, u32)>,
    tables: Seq<SegmentTables>,
) -> bool {
    &&& remaps.len() == tables.len()
    &&& forall|s: int|
        0 <= s < remaps.len() ==> (#[trigger] remaps[s])@.len() == tables[s].documents@.len()
    &&& forall|s: int, d: int|
        0 <= s < remaps.len() && 0 <= d < remaps[s]@.len() ==> (#[trigger] remaps[s]@[d] matches Some(
            m,
        ) ==> m < docs.len() && docs[m as int] == (s as usize, d as u32))
    &&& forall|m: int|
        0 <= m < docs.len() ==> (#[trigger] docs[m]).0 < remaps.len() && docs[m].1
            < remaps[docs[m].0 as int]@.len() && remaps[docs[m].0 as int]@[docs[m].1 as int] == Some(
            m as u32,
        )
}

proof fn lemma_kept_docs(dead: DeadSet, s: usize, first: int, end: int)
    requires
        0 <= first,
        end <= u32::MAX,
    ensures
        forall|m: int|
            0 <= m < kept_docs(dead, s, first, end).len() ==> ({
                let pair = #[trigger] kept_docs(dead, s, first, end)[m];
                pair.0 == s && first <= pair.1 < end && !dead.documents@.contains(pair.1)
            }),
        forall|d: u32|
            first <= d < end && !dead.documents@.contains(d) ==> #[trigger] kept_docs(
                dead,
                s,
                first,
                end,
            ).contains((s, d)),
    decreases end - first,
{
    if first < end {
        lemma_kept_docs(dead, s, first, end - 1);
        let front = kept_docs(dead, s, first, end - 1);
        let all = kept_docs(dead, s, first, end);
        assert forall|m: int| 0 <= m < all.len() implies ({
            let pair = #[trigger] all[m];
            pair.0 == s && first <= pair.1 < end && !dead.documents@.contains(pair.1)
        }) by {
            if m < front.len() {
                assert(all[m] == front[m]);
            }
        }
        assert forall|d: u32| first <= d < end && !dead.documents@.contains(d) implies #[trigger] all.contains(
            (s, d),
        ) by {
            if d < end - 1 {
                assert(front.contains((s, d)));
                let m = choose|m: int| 0 <= m < front.len() && front[m] == (s, d);
                assert(all[m] == (s, d));
            } else {
                assert(all[front.len() as int] == (s, d));
            }
        }
    }
}

/// Every document of the merged segment is one of a source of the order, and not dead.
proof fn lemma_merged_doc(
    order: Seq<(usize, u32)>,
    tables: Seq<SegmentTables>,
    dead: Seq<DeadSet>,
    n: int,
    m: int,
) -> (k: int)
    requires
        crate::update::segments_valid(tables, dead),
        0 <= n <= order.len(),
        forall|a: int|
            0 <= a < order.len() ==> crate::update::not_dead(
                tables,
                dead,
                (#[trigger] order[a]).0 as int,
                order[a].1 as int,
            ),
        0 <= m < merged_docs(order, tables, dead, n).len(),
    ensures
        0 <= k < n,
        ({
            let pair = merged_docs(order, tables, dead, n)[m];
            &&& pair.0 == order[k].0
            &&& pair.1 < tables[pair.0 as int].documents@.len()
            &&& tables[pair.0 as int].documents@[pair.1 as int].source_id == order[k].1
            &&& !dead[pair.0 as int].documents@.contains(pair.1)
        }),
    decreases n,
{
    let front = merged_docs(order, tables, dead, n - 1);
    let all = merged_docs(order, tables, dead, n);
    if m < front.len() {
        assert(all[m] == front[m]);
        lemma_merged_doc(order, tables, dead, n - 1, m)
    } else {
        let (s, i) = order[n - 1];
        assert(crate::update::not_dead(
            tables,
            dead,
            order[n - 1].0 as int,
            order[n - 1].1 as int,
        ));
        assert(crate::format::table_error(tables[s as int]) is None);
        assert(tables[s as int].documents@.len() <= u32::MAX);
        let source = tables[s as int].sources@[i as int];
        crate::format::valid_source_range(tables[s as int], i as int);
        let end = source.first_doc + source.doc_count;
        lemma_kept_docs(dead[s as int], s, source.first_doc as int, end);
        let kept = kept_docs(dead[s as int], s, source.first_doc as int, end);
        assert(all[m] == kept[m - front.len()]);
        crate::format::valid_doc_source(tables[s as int], i as int, all[m].1 as int);
        n - 1
    }
}

proof fn lemma_merged_prefix(
    order: Seq<(usize, u32)>,
    tables: Seq<SegmentTables>,
    dead: Seq<DeadSet>,
    a: int,
    b: int,
)
    requires
        0 <= a <= b,
    ensures
        merged_docs(order, tables, dead, a).len() <= merged_docs(order, tables, dead, b).len(),
        merged_docs(order, tables, dead, b).take(
            merged_docs(order, tables, dead, a).len() as int,
        ) == merged_docs(order, tables, dead, a),
    decreases b - a,
{
    let small = merged_docs(order, tables, dead, a);
    let large = merged_docs(order, tables, dead, b);
    if a < b {
        lemma_merged_prefix(order, tables, dead, a, b - 1);
        let middle = merged_docs(order, tables, dead, b - 1);
        assert(large.take(small.len() as int) =~= middle.take(small.len() as int));
    } else {
        assert(large.take(small.len() as int) =~= small);
    }
}

fn copy_doc(doc: &DocEntry, source_id: u32) -> (copy: DocEntry)
    ensures
        doc_moved(copy, *doc, source_id as int),
{
    let block_newlines: Vec<u32> = doc.block_newlines.clone();
    assert(block_newlines@ =~= doc.block_newlines@);
    DocEntry {
        display_key: doc.display_key.clone(),
        source_id,
        member_path: match &doc.member_path {
            Some(path) => Some(path.clone()),
            None => None,
        },
        decoded_size: doc.decoded_size,
        first_block: doc.first_block,
        block_offset: doc.block_offset,
        max_line_len: doc.max_line_len,
        block_newlines,
    }
}

fn empty_remaps(tables: &[SegmentTables]) -> (remaps: Vec<Vec<Option<u32>>>)
    ensures
        remaps@.len() == tables@.len(),
        forall|s: int|
            0 <= s < remaps@.len() ==> (#[trigger] remaps@[s])@.len() == tables@[s].documents@.len(),
        forall|s: int, d: int|
            0 <= s < remaps@.len() && 0 <= d < remaps@[s]@.len() ==> #[trigger] remaps@[s]@[d] is None,
{
    let mut remaps: Vec<Vec<Option<u32>>> = Vec::new();
    let mut s: usize = 0;
    while s < tables.len()
        invariant
            s <= tables.len(),
            remaps@.len() == s,
            forall|k: int|
                0 <= k < s ==> (#[trigger] remaps@[k])@.len() == tables@[k].documents@.len(),
            forall|k: int, d: int|
                0 <= k < s && 0 <= d < remaps@[k]@.len() ==> #[trigger] remaps@[k]@[d] is None,
        decreases tables.len() - s,
    {
        let mut map: Vec<Option<u32>> = Vec::new();
        let mut d: usize = 0;
        while d < tables[s].documents.len()
            invariant
                s < tables.len(),
                d <= tables@[s as int].documents@.len(),
                map@.len() == d,
                forall|k: int| 0 <= k < d ==> #[trigger] map@[k] is None,
            decreases tables@[s as int].documents@.len() - d,
        {
            map.push(None);
            d = d + 1;
        }
        remaps.push(map);
        s = s + 1;
    }
    remaps
}

/// What the merged segment holds: the sources and documents that are not dead.
#[verifier::rlimit(40)]
pub fn plan_merge(tables: &[SegmentTables], dead: &[DeadSet]) -> (plan: Result<
    MergePlan,
    IndexError,
>)
    requires
        crate::update::segments_valid(tables@, dead@),
    ensures
        match plan {
            Ok(plan) => {
                &&& merge_order_of(plan.order@, tables@, dead@)
                &&& plan.documents@ == merged_docs(
                    plan.order@,
                    tables@,
                    dead@,
                    plan.order@.len() as int,
                )
                &&& merged_tables(
                    plan.tables,
                    plan.order@,
                    tables@,
                    dead@,
                    plan.order@.len() as int,
                )
                &&& remaps_of(plan.remaps@, plan.documents@, tables@)
            },
            Err(e) => e == IndexError::SegmentTooLarge && exists|order: Seq<(usize, u32)>|
                #[trigger] merge_order_of(order, tables@, dead@) && (order.len() > u32::MAX
                    || merged_docs(order, tables@, dead@, order.len() as int).len() > u32::MAX),
        },
{
    let order = merge_order(tables, dead);
    if order.len() as u64 > u32::MAX as u64 {
        assert(merge_order_of(order@, tables@, dead@));
        return Err(IndexError::SegmentTooLarge);
    }
    let mut merged = SegmentTables {
        sources: Vec::new(),
        documents: Vec::new(),
        blocks: Vec::new(),
    };
    let mut documents: Vec<(usize, u32)> = Vec::new();
    let mut remaps = empty_remaps(tables);
    let mut k: usize = 0;
    while k < order.len()
        invariant
            k <= order.len() <= u32::MAX,
            crate::update::segments_valid(tables@, dead@),
            merge_order_of(order@, tables@, dead@),
            documents@ == merged_docs(order@, tables@, dead@, k as int),
            documents@.len() <= u32::MAX,
            merged_tables(merged, order@, tables@, dead@, k as int),
            remaps_of(remaps@, documents@, tables@),
        decreases order.len() - k,
    {
        let (s, i): (usize, u32) = order[k];
        assert(crate::update::not_dead(
            tables@,
            dead@,
            order@[k as int].0 as int,
            order@[k as int].1 as int,
        ));
        proof {
            assert(crate::format::table_error(tables@[s as int]) is None);
            assert(tables@[s as int].documents@.len() <= u32::MAX);
            crate::format::valid_source_range(tables@[s as int], i as int);
        }
        let source = &tables[s].sources[i as usize];
        let first: u32 = source.first_doc;
        let end: u32 = first + source.doc_count;
        let ghost base = documents@;
        let ghost before = merged;
        let ghost all = merged_docs(order@, tables@, dead@, k + 1);
        let start: usize = documents.len();
        let mut d: u32 = first;
        proof {
            assert(kept_docs(dead@[s as int], s, first as int, first as int) =~= Seq::empty());
            assert(base + kept_docs(dead@[s as int], s, first as int, first as int) =~= base);
        }
        while d < end
            invariant
                k < order.len() <= u32::MAX,
                order@[k as int] == (s, i),
                first <= d <= end,
                end <= tables@[s as int].documents@.len() <= u32::MAX,
                s < tables@.len(),
                tables@.len() == dead@.len(),
                i < tables@[s as int].sources@.len(),
                first == tables@[s as int].sources@[i as int].first_doc,
                end == first + tables@[s as int].sources@[i as int].doc_count,
                crate::update::segments_valid(tables@, dead@),
                merge_order_of(order@, tables@, dead@),
                base == merged_docs(order@, tables@, dead@, k as int),
                start == base.len(),
                all == merged_docs(order@, tables@, dead@, k + 1),
                documents@ == base + kept_docs(dead@[s as int], s, first as int, d as int),
                documents@.len() <= u32::MAX,
                merged.sources@ == before.sources@,
                merged.blocks@ == before.blocks@,
                merged.documents@.len() == documents@.len(),
                forall|m: int|
                    0 <= m < start ==> #[trigger] merged.documents@[m] == before.documents@[m],
                forall|m: int|
                    start <= m < documents@.len() ==> doc_moved(
                        #[trigger] merged.documents@[m],
                        tables@[documents@[m].0 as int].documents@[documents@[m].1 as int],
                        k as int,
                    ),
                remaps_of(remaps@, documents@, tables@),
            decreases end - d,
        {
            proof {
                assert(dead@[s as int].ordered()) by {
                    assert(crate::format::table_error(tables@[s as int]) is None);
                }
                lemma_kept_prefix(dead@[s as int], s, first as int, d + 1, end as int);
                lemma_kept_prefix(dead@[s as int], s, first as int, d as int, end as int);
            }
            if !contains_id(dead[s].documents.as_slice(), d) {
                if documents.len() as u64 >= u32::MAX as u64 {
                    proof {
                        lemma_merged_prefix(
                            order@,
                            tables@,
                            dead@,
                            k + 1,
                            order@.len() as int,
                        );
                        assert(merge_order_of(order@, tables@, dead@));
                    }
                    return Err(IndexError::SegmentTooLarge);
                }
                let ghost held = documents@;
                let ghost old_remaps = remaps@;
                proof {
                    lemma_fresh(
                        order@,
                        tables@,
                        dead@,
                        k as int,
                        base,
                        held,
                        first as int,
                        d as int,
                    );
                }
                let m: u32 = documents.len() as u32;
                merged.documents.push(copy_doc(&tables[s].documents[d as usize], k as u32));
                documents.push((s, d));
                let mut map: Vec<Option<u32>> = Vec::new();
                std::mem::swap(&mut map, &mut remaps[s]);
                map.set(d as usize, Some(m));
                std::mem::swap(&mut map, &mut remaps[s]);
                proof {
                    assert(documents@ =~= base + kept_docs(
                        dead@[s as int],
                        s,
                        first as int,
                        d + 1,
                    ));
                    assert(remaps@[s as int]@ == old_remaps[s as int]@.update(
                        d as int,
                        Some(m),
                    ));
                    lemma_remap_one(old_remaps, remaps@, held, documents@, tables@, s, d, m);
                }
            } else {
                assert(documents@ =~= base + kept_docs(dead@[s as int], s, first as int, d + 1));
            }
            d = d + 1;
        }
        let count: u32 = (documents.len() - start) as u32;
        merged.sources.push(
            SourceEntry {
                key: source.key.clone(),
                version: source.version.clone(),
                encoded_size: source.encoded_size,
                encoding: source.encoding,
                first_doc: start as u32,
                doc_count: count,
                failed: source.failed,
                retry: source.retry,
            },
        );
        proof {
            assert(documents@ == all);
            lemma_merged_prefix(order@, tables@, dead@, k as int, k + 1);
            assert forall|j: int| 0 <= j < k + 1 implies source_moved(
                #[trigger] merged.sources@[j],
                tables@[order@[j].0 as int].sources@[order@[j].1 as int],
                merged_docs(order@, tables@, dead@, j).len() as int,
                merged_docs(order@, tables@, dead@, j + 1).len() - merged_docs(
                    order@,
                    tables@,
                    dead@,
                    j,
                ).len(),
            ) by {
                if j < k {
                    assert(merged.sources@[j] == before.sources@[j]);
                }
            }
            assert forall|m: int| 0 <= m < all.len() implies exists|j: int|
                #![trigger order@[j]]
                0 <= j < k + 1 && merged_docs(order@, tables@, dead@, j).len() <= m < merged_docs(
                    order@,
                    tables@,
                    dead@,
                    j + 1,
                ).len() && doc_moved(
                    #[trigger] merged.documents@[m],
                    tables@[all[m].0 as int].documents@[all[m].1 as int],
                    j,
                ) by {
                if m < start {
                    assert(base[m] == all[m]) by {
                        assert(all.take(start as int)[m] == all[m]);
                    }
                    let j = choose|j: int|
                        #![trigger order@[j]]
                        0 <= j < k && merged_docs(order@, tables@, dead@, j).len() <= m
                            < merged_docs(order@, tables@, dead@, j + 1).len() && doc_moved(
                            before.documents@[m],
                            tables@[base[m].0 as int].documents@[base[m].1 as int],
                            j,
                        );
                    assert(merged.documents@[m] == before.documents@[m]);
                    assert(order@[j] == order@[j]);
                } else {
                    assert(order@[k as int] == (s, i));
                }
            }
        }
        k = k + 1;
    }
    Ok(MergePlan { tables: merged, order, documents, remaps })
}

proof fn lemma_kept_prefix(dead: DeadSet, s: usize, first: int, a: int, b: int)
    requires
        first <= a <= b,
    ensures
        kept_docs(dead, s, first, a).len() <= kept_docs(dead, s, first, b).len(),
    decreases b - a,
{
    if a < b {
        lemma_kept_prefix(dead, s, first, a, b - 1);
    }
}

/// A document that is about to be taken has not been taken before.
proof fn lemma_fresh(
    order: Seq<(usize, u32)>,
    tables: Seq<SegmentTables>,
    dead: Seq<DeadSet>,
    k: int,
    base: Seq<(usize, u32)>,
    held: Seq<(usize, u32)>,
    first: int,
    d: int,
)
    requires
        crate::update::segments_valid(tables, dead),
        merge_order_of(order, tables, dead),
        0 <= k < order.len(),
        base == merged_docs(order, tables, dead, k),
        first == tables[order[k].0 as int].sources@[order[k].1 as int].first_doc,
        first <= d < first + tables[order[k].0 as int].sources@[order[k].1 as int].doc_count,
        d < tables[order[k].0 as int].documents@.len(),
        held == base + kept_docs(dead[order[k].0 as int], order[k].0, first, d),
    ensures
        !held.contains((order[k].0, d as u32)),
{
    let (s, i) = order[k];
    assert(crate::update::not_dead(tables, dead, order[k].0 as int, order[k].1 as int));
    assert(crate::format::table_error(tables[s as int]) is None);
    assert(tables[s as int].documents@.len() <= u32::MAX);
    lemma_kept_docs(dead[s as int], s, first, d);
    crate::format::valid_doc_source(tables[s as int], i as int, d);
    if held.contains((s, d as u32)) {
        let m = choose|m: int| 0 <= m < held.len() && held[m] == (s, d as u32);
        if m < base.len() {
            let j = lemma_merged_doc(order, tables, dead, k, m);
            assert(base[m] == held[m]);
            assert(order[j] == order[k]);
        } else {
            let kept = kept_docs(dead[s as int], s, first, d);
            assert(kept[m - base.len()] == held[m]);
        }
    }
}

proof fn lemma_remap_one(
    remaps: Seq<Vec<Option<u32>>>,
    more: Seq<Vec<Option<u32>>>,
    docs: Seq<(usize, u32)>,
    next: Seq<(usize, u32)>,
    tables: Seq<SegmentTables>,
    s: usize,
    d: u32,
    m: u32,
)
    requires
        remaps_of(remaps, docs, tables),
        s < remaps.len(),
        d < remaps[s as int]@.len(),
        m == docs.len(),
        !docs.contains((s, d)),
        next == docs.push((s, d)),
        more.len() == remaps.len(),
        forall|k: int| 0 <= k < remaps.len() && k != s ==> #[trigger] more[k] == remaps[k],
        more[s as int]@ == remaps[s as int]@.update(d as int, Some(m)),
    ensures
        remaps_of(more, next, tables),
{
    assert forall|k: int| 0 <= k < more.len() implies (#[trigger] more[k])@.len()
        == tables[k].documents@.len() by {
        assert(remaps[k]@.len() == tables[k].documents@.len());
    }
    assert forall|k: int, e: int| 0 <= k < more.len() && 0 <= e < more[k]@.len() implies (
    #[trigger] more[k]@[e] matches Some(x) ==> x < next.len() && next[x as int] == (
        k as usize,
        e as u32,
    )) by {
        if !(k == s && e == d) {
            assert(more[k]@[e] == remaps[k]@[e]);
            if let Some(x) = more[k]@[e] {
                assert(next[x as int] == docs[x as int]);
            }
        }
    }
    assert forall|x: int| 0 <= x < next.len() implies (#[trigger] next[x]).0 < more.len()
        && next[x].1 < more[next[x].0 as int]@.len() && more[next[x].0 as int]@[next[x].1 as int]
        == Some(x as u32) by {
        if x < docs.len() {
            assert(next[x] == docs[x]);
            assert(remaps[docs[x].0 as int]@[docs[x].1 as int] == Some(x as u32));
            assert(docs.contains(docs[x]));
        }
    }
}

/// A merge drops no live document and takes each once: a document of the segments is in the
/// merged one if and only if neither it nor its source is dead.
pub proof fn merges_keep_live_documents(
    order: Seq<(usize, u32)>,
    docs: Seq<(usize, u32)>,
    remaps: Seq<Vec<Option<u32>>>,
    tables: Seq<SegmentTables>,
    dead: Seq<DeadSet>,
    s: usize,
    d: u32,
)
    requires
        crate::update::segments_valid(tables, dead),
        tables.len() <= usize::MAX,
        merge_order_of(order, tables, dead),
        docs == merged_docs(order, tables, dead, order.len() as int),
        docs.len() <= u32::MAX,
        remaps_of(remaps, docs, tables),
        s < tables.len(),
        d < tables[s as int].documents@.len(),
    ensures
        remaps[s as int]@[d as int] is Some <==> !dead[s as int].documents@.contains(d),
        remaps[s as int]@[d as int] matches Some(m) ==> docs[m as int] == (s, d),
        docs.no_duplicates(),
{
    let table = tables[s as int];
    assert(crate::format::table_error(table) is None);
    assert(table.documents@.len() <= u32::MAX && table.sources@.len() <= u32::MAX);
    assert(remaps[s as int]@.len() == table.documents@.len());
    if remaps[s as int]@[d as int] is Some {
        let m = remaps[s as int]@[d as int]->0;
        let k = lemma_merged_doc(order, tables, dead, order.len() as int, m as int);
    } else if !dead[s as int].documents@.contains(d) {
        crate::format::valid_documents_owned(table, d as int);
        let id = table.documents@[d as int].source_id;
        crate::format::dead_documents_follow_sources(dead[s as int], table, d);
        assert(crate::update::not_dead(tables, dead, s as int, id as int));
        assert(order.contains((s, id)));
        let k = choose|k: int| 0 <= k < order.len() && order[k] == (s, id);
        let source = table.sources@[id as int];
        let end = source.first_doc + source.doc_count;
        crate::format::valid_source_range(table, id as int);
        lemma_kept_docs(dead[s as int], s, source.first_doc as int, end);
        let kept = kept_docs(dead[s as int], s, source.first_doc as int, end);
        assert(kept.contains((s, d)));
        let j = choose|j: int| 0 <= j < kept.len() && kept[j] == (s, d);
        let front = merged_docs(order, tables, dead, k);
        lemma_merged_prefix(order, tables, dead, k + 1, order.len() as int);
        let part = merged_docs(order, tables, dead, k + 1);
        assert(part == front + kept);
        assert(part[front.len() + j] == (s, d));
        assert(docs.take(part.len() as int)[front.len() + j] == docs[front.len() + j]);
        assert(docs[front.len() + j] == (s, d));
    }
    assert forall|a: int, b: int| 0 <= a < docs.len() && 0 <= b < docs.len() && a != b implies docs[a]
        != docs[b] by {
        assert(remaps[docs[a].0 as int]@[docs[a].1 as int] == Some(a as u32));
        assert(remaps[docs[b].0 as int]@[docs[b].1 as int] == Some(b as u32));
    }
}

/// A block that is remapped is the same block of the same document: it lies in the document's
/// new place, as far from its first block as before.
pub proof fn remapped_blocks_keep_their_place(
    id: u32,
    remap: Seq<Option<u32>>,
    old_bases: Seq<u32>,
    new_bases: Seq<u32>,
    document: int,
)
    requires
        crate::candidate::valid_bases(old_bases),
        crate::candidate::valid_bases(new_bases),
        crate::candidate::holds_block(old_bases, document, id),
        document + 1 < old_bases.len(),
        document < remap.len(),
        remap[document] matches Some(m) && m + 1 < new_bases.len() && new_bases[m + 1]
            - new_bases[m as int] == old_bases[document + 1] - old_bases[document],
    ensures
        ({
            let m = remap[document]->0;
            &&& remapped(Strategy::Trigram, id, remap, old_bases, new_bases) matches Ok(Some(new_id))
            &&& crate::candidate::holds_block(new_bases, m as int, new_id)
            &&& new_id - new_bases[m as int] == id - old_bases[document]
        }),
{
    lemma_block_unique(old_bases, id, document);
}

/// The documents to read for a merge, in the order they are written.
pub fn merge_requests(tables: &SegmentTables) -> (requests: Vec<PackRequest>)
    ensures
        requests@.len() == tables.documents@.len(),
        forall|m: int|
            0 <= m < requests@.len() ==> #[trigger] requests@[m] == (PackRequest {
                index: m as usize,
                slice: PackSlice {
                    first_block: tables.documents@[m].first_block,
                    block_offset: tables.documents@[m].block_offset,
                },
                decoded_size: tables.documents@[m].decoded_size,
            }),
{
    let mut requests: Vec<PackRequest> = Vec::new();
    let mut m: usize = 0;
    while m < tables.documents.len()
        invariant
            m <= tables.documents.len(),
            requests@.len() == m,
            forall|k: int|
                0 <= k < m ==> #[trigger] requests@[k] == (PackRequest {
                    index: k as usize,
                    slice: PackSlice {
                        first_block: tables.documents@[k].first_block,
                        block_offset: tables.documents@[k].block_offset,
                    },
                    decoded_size: tables.documents@[k].decoded_size,
                }),
        decreases tables.documents.len() - m,
    {
        let document = &tables.documents[m];
        requests.push(
            PackRequest {
                index: m,
                slice: PackSlice {
                    first_block: document.first_block,
                    block_offset: document.block_offset,
                },
                decoded_size: document.decoded_size,
            },
        );
        m = m + 1;
    }
    requests
}

pub open spec fn goes_to(documents: Seq<(usize, u32)>, s: usize) -> spec_fn(PackRequest) -> bool {
    |request: PackRequest| documents[request.index as int].0 == s
}

/// The requests of a window that go to segment `s`.
pub open spec fn requests_to(
    requests: Seq<PackRequest>,
    documents: Seq<(usize, u32)>,
    s: usize,
) -> Seq<PackRequest> {
    requests.filter(goes_to(documents, s))
}

/// The requests for documents of segment `s`.
pub fn select_requests(
    requests: &[PackRequest],
    documents: &[(usize, u32)],
    s: usize,
) -> (selected: Vec<PackRequest>)
    requires
        forall|k: int| 0 <= k < requests@.len() ==> (#[trigger] requests@[k]).index < documents@.len(),
    ensures
        selected@ == requests_to(requests@, documents@, s),
{
    let mut selected: Vec<PackRequest> = Vec::new();
    let mut k: usize = 0;
    let ghost goes = goes_to(documents@, s);
    proof {
        reveal(Seq::filter);
        assert(requests@.take(0) =~= Seq::empty());
    }
    while k < requests.len()
        invariant
            k <= requests.len(),
            forall|j: int|
                0 <= j < requests@.len() ==> (#[trigger] requests@[j]).index < documents@.len(),
            goes == goes_to(documents@, s),
            selected@ == requests@.take(k as int).filter(goes),
        decreases requests.len() - k,
    {
        let request: PackRequest = requests[k];
        proof {
            reveal(Seq::filter);
            assert(requests@.take(k + 1).drop_last() =~= requests@.take(k as int));
            assert(requests@.take(k + 1).last() == request);
        }
        if documents[request.index].0 == s {
            selected.push(request);
        }
        k = k + 1;
    }
    assert(requests@.take(k as int) =~= requests@);
    selected
}

/// Give the documents of a merged segment the places where they were packed, and the segment its
/// blocks.
pub fn place_documents(
    tables: SegmentTables,
    slices: &[PackSlice],
    blocks: Vec<crate::format::PackBlock>,
) -> (placed: SegmentTables)
    requires
        slices@.len() == tables.documents@.len(),
    ensures
        placed.sources@ == tables.sources@,
        placed.blocks@ == blocks@,
        placed.documents@.len() == tables.documents@.len(),
        forall|m: int|
            0 <= m < placed.documents@.len() ==> #[trigger] placed.documents@[m] == (DocEntry {
                first_block: slices@[m].first_block,
                block_offset: slices@[m].block_offset,
                ..tables.documents@[m]
            }),
{
    let mut rest = tables.documents;
    let ghost all = rest@;
    let mut reversed: Vec<DocEntry> = Vec::new();
    while rest.len() > 0
        invariant
            slices@.len() == all.len(),
            rest@.len() <= all.len(),
            rest@ == all.take(rest@.len() as int),
            reversed@.len() == all.len() - rest@.len(),
            forall|k: int|
                0 <= k < reversed@.len() ==> #[trigger] reversed@[k] == (DocEntry {
                    first_block: slices@[all.len() - 1 - k].first_block,
                    block_offset: slices@[all.len() - 1 - k].block_offset,
                    ..all[all.len() - 1 - k]
                }),
        decreases rest.len(),
    {
        if let Some(document) = rest.pop() {
            let at: usize = rest.len();
            let slice: PackSlice = slices[at];
            let mut moved = document;
            moved.first_block = slice.first_block;
            moved.block_offset = slice.block_offset;
            reversed.push(moved);
            assert(rest@ =~= all.take(rest@.len() as int));
        }
    }
    let mut documents: Vec<DocEntry> = Vec::new();
    let ghost backwards = reversed@;
    while reversed.len() > 0
        invariant
            reversed@.len() <= backwards.len(),
            reversed@ == backwards.take(reversed@.len() as int),
            documents@.len() == backwards.len() - reversed@.len(),
            forall|k: int|
                0 <= k < documents@.len() ==> #[trigger] documents@[k] == backwards[backwards.len()
                    - 1 - k],
        decreases reversed.len(),
    {
        if let Some(document) = reversed.pop() {
            documents.push(document);
            assert(reversed@ =~= backwards.take(reversed@.len() as int));
        }
    }
    SegmentTables { sources: tables.sources, documents, blocks }
}

/// Two neighbours that fit into one segment.
pub open spec fn fit_together(left: SegmentSize, right: SegmentSize) -> bool {
    &&& left.postings_len + right.postings_len <= 268435456
    &&& left.terms_len + right.terms_len <= 67108864
    &&& left.docs_len + right.docs_len <= 67108864
    &&& left.live + right.live <= 4000000
}

/// What is merged is a pair of neighbours that fits into one segment, and none that fits has fewer live
/// documents. While there are more segments than are wanted, a pair that fits is found.
pub proof fn merges_take_the_smallest_pair(sizes: Seq<SegmentSize>, victim: Option<usize>, i: int)
    requires
        is_victim(sizes, victim),
        0 <= i < sizes.len() - 1,
        fit_together(sizes[i], sizes[i + 1]),
    ensures
        victim is Some <==> sizes.len() > SEGMENT_COUNT_TARGET,
        victim matches Some(v) ==> {
            &&& v + 1 < sizes.len()
            &&& fit_together(sizes[v as int], sizes[v + 1])
            &&& sizes[v as int].live + sizes[v + 1].live <= sizes[i].live + sizes[i + 1].live
        },
{
    assert(mergeable(sizes, i));
}

/// Merging changes where documents stand and nothing else: each keeps its key, its size and what is known of
/// its lines, and each source its key, its version and whether it failed or is to be tried again.
pub proof fn merged_entries_stay_as_they_were(
    merged: SegmentTables,
    order: Seq<(usize, u32)>,
    tables: Seq<SegmentTables>,
    dead: Seq<DeadSet>,
    n: int,
    m: int,
    k: int,
)
    requires
        merged_tables(merged, order, tables, dead, n),
    ensures
        ({
            let docs = merged_docs(order, tables, dead, n);
            &&& merged.documents@.len() == docs.len()
            &&& 0 <= m < docs.len() ==> {
                let new = merged.documents@[m];
                let old = tables[docs[m].0 as int].documents@[docs[m].1 as int];
                &&& new.display_key@ == old.display_key@
                &&& new.member_path is Some <==> old.member_path is Some
                &&& new.member_path matches Some(path) ==> path@ == old.member_path->0@
                &&& new.decoded_size == old.decoded_size
                &&& new.max_line_len == old.max_line_len
                &&& new.block_newlines@ == old.block_newlines@
            }
            &&& 0 <= k < n ==> {
                let new = merged.sources@[k];
                let old = tables[order[k].0 as int].sources@[order[k].1 as int];
                &&& new.key@ == old.key@
                &&& new.version@ == old.version@
                &&& new.encoded_size == old.encoded_size
                &&& new.encoding == old.encoding
                &&& new.failed == old.failed
                &&& new.retry == old.retry
            }
        }),
{
    let docs = merged_docs(order, tables, dead, n);
    if 0 <= m < docs.len() {
        let j = choose|j: int|
            #![trigger order[j]]
            0 <= j < n && merged_docs(order, tables, dead, j).len() <= m < merged_docs(
                order,
                tables,
                dead,
                j + 1,
            ).len() && doc_moved(
                merged.documents@[m],
                tables[docs[m].0 as int].documents@[docs[m].1 as int],
                j,
            );
        assert(doc_moved(
            merged.documents@[m],
            tables[docs[m].0 as int].documents@[docs[m].1 as int],
            j,
        ));
    }
    if 0 <= k < n {
        assert(source_moved(
            merged.sources@[k],
            tables[order[k].0 as int].sources@[order[k].1 as int],
            merged_docs(order, tables, dead, k).len() as int,
            merged_docs(order, tables, dead, k + 1).len() - merged_docs(
                order,
                tables,
                dead,
                k,
            ).len(),
        ));
    }
}

} // verus!
