//! Candidate blocks: a document is cut into fixed-size blocks, trigram postings name blocks, and
//! what a match may reach of the neighbouring blocks is added before anything is read.

use crate::error::IndexError;
use crate::eval::{
    blocks_needed, eval, resolve, Expand, NoExpansion, Resolved, Selection, TermLookup,
};
use crate::format::SegmentTables;
use crate::query::{Query, Strategy};
use crate::sorting::{stable_sort, Keyed};
use std::collections::BTreeMap;
use vstd::prelude::*;

verus! {

/// Bytes of a candidate block.
pub const CANDIDATE_BLOCK_BYTES: usize = 131072;

/// How far from a candidate block a match may reach.
#[derive(Debug, Clone, Copy, PartialEq, Eq, Structural)]
pub enum SearchExtent {
    Document,
    Lines,
    Bytes { span: usize },
}

/// Candidate blocks `start..end` of a document.
#[derive(Debug, Clone, Copy, PartialEq, Eq, Structural)]
pub struct CandidateRange {
    pub start: u32,
    pub end: u32,
    pub extent: SearchExtent,
}

/// One pattern's gram query and reach.
#[derive(Debug, Clone, Copy)]
pub struct CandidatePlan<'a> {
    pub query: &'a Query,
    pub extent: SearchExtent,
}

/// How many documents and decoded bytes one batch of candidates may hold.
#[derive(Debug, Clone, Copy, PartialEq, Eq, Structural)]
pub struct CandidateBatchLimits {
    pub documents: usize,
    pub decoded_bytes: u64,
}

pub open spec fn zero_span(extent: SearchExtent) -> bool {
    extent == (SearchExtent::Bytes { span: 0 })
}

/// The first thing wrong with a candidate request.
pub open spec fn plans_error(plans: Seq<CandidatePlan>, limits: CandidateBatchLimits) -> Option<
    IndexError,
> {
    if plans.len() == 0 {
        Some(IndexError::NoCandidatePlans)
    } else if limits.documents == 0 {
        Some(IndexError::DocumentLimit)
    } else if limits.decoded_bytes == 0 {
        Some(IndexError::DecodedByteLimit)
    } else if exists|i: int| 0 <= i < plans.len() && zero_span(#[trigger] plans[i].extent) {
        Some(IndexError::ByteSpan)
    } else {
        None
    }
}

/// Check a candidate request.
pub fn validate_candidate_plans(
    plans: &[CandidatePlan<'_>],
    limits: CandidateBatchLimits,
) -> (checked: Result<(), IndexError>)
    ensures
        match checked {
            Ok(_) => plans_error(plans@, limits) is None,
            Err(e) => plans_error(plans@, limits) == Some(e),
        },
{
    if plans.len() == 0 {
        return Err(IndexError::NoCandidatePlans);
    }
    if limits.documents == 0 {
        return Err(IndexError::DocumentLimit);
    }
    if limits.decoded_bytes == 0 {
        return Err(IndexError::DecodedByteLimit);
    }
    let mut i: usize = 0;
    while i < plans.len()
        invariant
            i <= plans.len(),
            plans.len() > 0,
            limits.documents > 0,
            limits.decoded_bytes > 0,
            forall|k: int| 0 <= k < i ==> !zero_span(#[trigger] plans@[k].extent),
        decreases plans.len() - i,
    {
        let zero: bool = match plans[i].extent {
            SearchExtent::Bytes { span } => span == 0,
            _ => false,
        };
        if zero {
            assert(zero_span(plans@[i as int].extent));
            return Err(IndexError::ByteSpan);
        }
        i = i + 1;
    }
    Ok(())
}

/// Candidate blocks of a document of `size` bytes.
pub open spec fn block_count(size: u64) -> nat {
    (size as nat + CANDIDATE_BLOCK_BYTES as nat - 1) as nat / CANDIDATE_BLOCK_BYTES as nat
}

/// Candidate blocks of the first `i` documents.
pub open spec fn blocks_before(t: SegmentTables, i: nat) -> nat
    decreases i,
{
    if i == 0 {
        0
    } else {
        blocks_before(t, (i - 1) as nat) + block_count(t.documents@[i - 1].decoded_size)
    }
}

/// First block id of every document, and the id past the last.
pub open spec fn block_bases(t: SegmentTables) -> Seq<u32> {
    Seq::new(t.documents@.len() + 1, |i: int| blocks_before(t, i as nat) as u32)
}

pub proof fn lemma_blocks_before_mono(t: SegmentTables, a: nat, b: nat)
    requires
        a <= b,
    ensures
        blocks_before(t, a) <= blocks_before(t, b),
    decreases b - a,
{
    if a < b {
        lemma_blocks_before_mono(t, a, (b - 1) as nat);
    }
}

/// Each document has as many blocks as its bytes fill, the last one in part.
pub open spec fn blocks_hold_documents(bases: Seq<u32>, t: SegmentTables) -> bool {
    &&& bases.len() == t.documents@.len() + 1
    &&& bases[0] == 0
    &&& forall|d: int|
        0 <= d < t.documents@.len() ==> {
            let held = bases[d + 1] - bases[d];
            let size = (#[trigger] t.documents@[d]).decoded_size;
            (held - 1) * 131072 < size <= held * 131072
        }
}

/// Blocks are numbered document by document, and each document gets the blocks that its bytes fill.
pub proof fn documents_get_the_blocks_they_fill(t: SegmentTables)
    requires
        blocks_before(t, t.documents@.len()) <= u32::MAX,
    ensures
        blocks_hold_documents(block_bases(t), t),
{
    let bases = block_bases(t);
    assert forall|d: int| 0 <= d < t.documents@.len() implies ({
        let held = bases[d + 1] - bases[d];
        let size = (#[trigger] t.documents@[d]).decoded_size;
        (held - 1) * 131072 < size <= held * 131072
    }) by {
        lemma_blocks_before_mono(t, d as nat, t.documents@.len());
        lemma_blocks_before_mono(t, (d + 1) as nat, t.documents@.len());
        let size = t.documents@[d].decoded_size as int;
        let held = block_count(t.documents@[d].decoded_size) as int;
        assert(blocks_before(t, (d + 1) as nat) == blocks_before(t, d as nat) + held);
        assert((held - 1) * 131072 < size <= held * 131072) by {
            assert(held == (size + 131071) / 131072);
        }
    }
    assert(blocks_before(t, 0) == 0);
}


/// Number the candidate blocks of all documents.
pub fn build_block_bases(tables: &SegmentTables) -> (bases: Result<Vec<u32>, IndexError>)
    ensures
        match bases {
            Ok(list) => blocks_before(*tables, tables.documents@.len()) <= u32::MAX && list@
                == block_bases(*tables) && valid_bases(list@) && blocks_hold_documents(
                list@,
                *tables,
            ),
            Err(e) => blocks_before(*tables, tables.documents@.len()) > u32::MAX && e
                == IndexError::CandidateBlockCount,
        },
{
    let mut bases: Vec<u32> = Vec::new();
    let mut next: u32 = 0;
    bases.push(next);
    let mut i: usize = 0;
    while i < tables.documents.len()
        invariant
            i <= tables.documents.len(),
            next == blocks_before(*tables, i as nat),
            bases@.len() == i + 1,
            forall|k: int| 0 <= k <= i ==> bases@[k] == blocks_before(*tables, k as nat),
        decreases tables.documents.len() - i,
    {
        let size: u64 = tables.documents[i].decoded_size;
        let blocks: u64 = size / 131072 + if size % 131072 == 0 { 0 } else { 1 };
        assert(blocks == block_count(size));
        proof {
            lemma_blocks_before_mono(*tables, (i + 1) as nat, tables.documents@.len());
        }
        if blocks > 0xffff_ffff - next as u64 {
            return Err(IndexError::CandidateBlockCount);
        }
        next = next + blocks as u32;
        bases.push(next);
        i = i + 1;
    }
    assert(bases@ =~= block_bases(*tables));
    assert forall|a: int, b: int| 0 <= a <= b < bases@.len() implies bases@[a] <= bases@[b] by {
        lemma_blocks_before_mono(*tables, a as nat, b as nat);
    }
    Ok(bases)
}

/// Block bases start at zero and never go down.
pub open spec fn valid_bases(bases: Seq<u32>) -> bool {
    &&& crate::ids::non_descending(bases)
    &&& bases.len() > 0 ==> bases[0] == 0
}

/// How many blocks there are in all.
pub open spec fn total_blocks(bases: Seq<u32>) -> u32 {
    if bases.len() == 0 {
        0
    } else {
        bases.last()
    }
}

/// Block `id` belongs to document `d`.
pub open spec fn holds_block(bases: Seq<u32>, d: int, id: u32) -> bool {
    0 <= d < bases.len() && bases[d] <= id && (d + 1 < bases.len() ==> id < bases[d + 1])
}

/// The document that holds block `id`.
pub fn get_block_document(id: u32, bases: &[u32]) -> (document: usize)
    requires
        crate::ids::non_descending(bases@),
        bases@.len() > 0,
        bases@[0] <= id,
    ensures
        holds_block(bases@, document as int, id),
{
    let mut low: usize = 1;
    let mut high: usize = bases.len();
    while low < high
        invariant
            crate::ids::non_descending(bases@),
            1 <= low <= high <= bases.len(),
            bases@[0] <= id,
            forall|k: int| 0 <= k < low ==> bases@[k] <= id,
            forall|k: int| high <= k < bases.len() ==> bases@[k] > id,
        decreases high - low,
    {
        let mid: usize = low + (high - low) / 2;
        if bases[mid] <= id {
            assert forall|k: int| 0 <= k < mid + 1 implies bases@[k] <= id by {
                assert(bases@[k] <= bases@[mid as int]);
            }
            low = mid + 1;
        } else {
            assert forall|k: int| mid <= k < bases.len() implies bases@[k] > id by {
                assert(bases@[mid as int] <= bases@[k]);
            }
            high = mid;
        }
    }
    low - 1
}

/// One document holds a block.
pub proof fn lemma_block_document_unique(bases: Seq<u32>, a: int, b: int, id: u32)
    requires
        crate::ids::non_descending(bases),
        holds_block(bases, a, id),
        holds_block(bases, b, id),
    ensures
        a == b,
{
    if a < b {
        assert(bases[a + 1] <= bases[b]);
    } else if b < a {
        assert(bases[b + 1] <= bases[a]);
    }
}

/// Blocks beyond its own that a candidate may concern, to either side, in a document of `blocks`
/// blocks whose longest line is `max_line_len`.
pub open spec fn slack(extent: SearchExtent, blocks: int, max_line_len: u32) -> int {
    match extent {
        SearchExtent::Document => blocks,
        SearchExtent::Bytes { span } => {
            let reach = 1 + (span - 1) / CANDIDATE_BLOCK_BYTES as int;
            if reach < u32::MAX {
                reach
            } else {
                u32::MAX as int
            }
        },
        SearchExtent::Lines => if max_line_len == u32::MAX {
            blocks
        } else {
            1 + max_line_len as int / CANDIDATE_BLOCK_BYTES as int
        },
    }
}

/// `id` widened by `reach` blocks to either side, within `start..=end`.
pub open spec fn reach_of(id: u32, start: int, end: int, reach: int) -> (u32, u32) {
    (
        (if id - reach > start {
            id - reach
        } else {
            start
        }) as u32,
        (if id + reach < end {
            id + reach
        } else {
            end
        }) as u32,
    )
}

/// The document that holds block `id`, as a choice.
pub open spec fn document_of(bases: Seq<u32>, id: u32) -> int {
    choose|d: int| holds_block(bases, d, id)
}

/// The blocks of its document that a match around block `id` may touch.
pub open spec fn expanded_block(
    id: u32,
    bases: Seq<u32>,
    t: SegmentTables,
    extent: SearchExtent,
) -> (u32, u32) {
    let d = document_of(bases, id);
    let start = bases[d] as int;
    let end = bases[d + 1] - 1;
    reach_of(id, start, end, slack(extent, end - start + 1, t.documents@[d].max_line_len))
}

/// A match that touches block `id` of document `d` may touch block `other`: both are blocks of the
/// document, and the blocks between them leave room for the match. A match of `span` bytes, or a
/// line of the document, is longer than the blocks between two blocks that it touches; where the
/// extent is the document, or the longest line is not known, there is no bound.
pub open spec fn may_touch(
    bases: Seq<u32>,
    t: SegmentTables,
    extent: SearchExtent,
    d: int,
    id: u32,
    other: u32,
) -> bool {
    let between = if other > id {
        other - id - 1
    } else {
        id - other - 1
    };
    &&& bases[d] <= other < bases[d + 1]
    &&& match extent {
        SearchExtent::Document => true,
        SearchExtent::Bytes { span } => between * 131072 < span,
        SearchExtent::Lines => t.documents@[d].max_line_len < 0xffff_ffff ==> between * 131072
            <= t.documents@[d].max_line_len,
    }
}

/// A block is widened to the blocks of its document that a match through it may touch, and to no
/// others.
pub proof fn expansions_reach_what_matches_touch(
    bases: Seq<u32>,
    t: SegmentTables,
    extent: SearchExtent,
    d: int,
    id: u32,
    other: u32,
)
    requires
        valid_bases(bases),
        bases.len() == t.documents@.len() + 1,
        id < total_blocks(bases),
        !zero_span(extent),
        holds_block(bases, d, id),
    ensures
        ({
            let range = expanded_block(id, bases, t, extent);
            (range.0 <= other <= range.1) <==> may_touch(bases, t, extent, d, id, other)
        }),
{
    lemma_document_of(bases, id);
    lemma_block_document_unique(bases, d, document_of(bases, id), id);
    let between = if other > id {
        other - id - 1
    } else {
        id - other - 1
    };
    let reach = slack(extent, bases[d + 1] - bases[d], t.documents@[d].max_line_len);
    match extent {
        SearchExtent::Document => {},
        SearchExtent::Bytes { span } => {
            assert(between * 131072 < span <==> between <= (span - 1) / 131072);
        },
        SearchExtent::Lines => {
            let longest = t.documents@[d].max_line_len as int;
            assert(between * 131072 <= longest <==> between <= longest / 131072);
        },
    }
}

/// First and last block around `id` that a match may touch.
pub fn expand_candidate_block(
    id: u32,
    bases: &[u32],
    tables: &SegmentTables,
    extent: SearchExtent,
) -> (range: (u32, u32))
    requires
        valid_bases(bases@),
        bases@.len() == tables.documents@.len() + 1,
        id < total_blocks(bases@),
        !zero_span(extent),
    ensures
        range == expanded_block(id, bases@, *tables, extent),
        range.0 <= id <= range.1,
        forall|d: int, other: u32|
            holds_block(bases@, d, id) ==> ((range.0 <= other <= range.1) <==> #[trigger] may_touch(
                bases@,
                *tables,
                extent,
                d,
                id,
                other,
            )),
{
    proof {
        assert forall|d: int, other: u32| holds_block(bases@, d, id) implies ((expanded_block(
            id,
            bases@,
            *tables,
            extent,
        ).0 <= other <= expanded_block(id, bases@, *tables, extent).1) <==> #[trigger] may_touch(
            bases@,
            *tables,
            extent,
            d,
            id,
            other,
        )) by {
            expansions_reach_what_matches_touch(bases@, *tables, extent, d, id, other);
        }
    }
    let document: usize = get_block_document(id, bases);
    proof {
        assert(document + 1 < bases@.len()) by {
            if document + 1 >= bases@.len() {
                assert(bases@[document as int] == bases@.last());
            }
        }
        lemma_block_document_unique(bases@, document as int, document_of(bases@, id), id);
    }
    let start: u32 = bases[document];
    let end: u32 = bases[document + 1] - 1;
    let reach: u64 = match extent {
        SearchExtent::Document => return (start, end),
        SearchExtent::Bytes { span } => {
            let blocks: usize = 1 + (span - 1) / CANDIDATE_BLOCK_BYTES;
            if blocks < 0xffff_ffff {
                blocks as u64
            } else {
                0xffff_ffff
            }
        },
        SearchExtent::Lines => {
            let max_line_len: u32 = tables.documents[document].max_line_len;
            if max_line_len == 0xffff_ffff {
                (end - start) as u64 + 1
            } else {
                1 + (max_line_len / 131072) as u64
            }
        },
    };
    let low: u32 = if id as u64 > start as u64 + reach { (id as u64 - reach) as u32 } else { start };
    let high: u32 = if (id as u64 + reach) < end as u64 { (id as u64 + reach) as u32 } else { end };
    (low, high)
}

/// Widening of trigram block ids within their documents.
pub struct BlockExpansion<'a> {
    pub bases: &'a [u32],
    pub tables: &'a SegmentTables,
    pub extent: SearchExtent,
}

impl Expand for BlockExpansion<'_> {
    open spec fn accepts(&self, id: u32) -> bool {
        &&& valid_bases(self.bases@)
        &&& self.bases@.len() == self.tables.documents@.len() + 1
        &&& id < total_blocks(self.bases@)
        &&& !zero_span(self.extent)
    }

    open spec fn range(&self, id: u32) -> (u32, u32) {
        expanded_block(id, self.bases@, *self.tables, self.extent)
    }

    fn expand(&self, id: u32) -> (range: (u32, u32)) {
        expand_candidate_block(id, self.bases, self.tables, self.extent)
    }
}

/// A match of at most `span` bytes that touches block `id` touches no block beyond the slack: any
/// two bytes that close are in blocks that close.
pub proof fn span_stays_within_slack(p: nat, q: nat, span: usize, blocks: int, max_line_len: u32)
    requires
        span >= 1,
        p <= q < p + span,
        q / CANDIDATE_BLOCK_BYTES as nat <= u32::MAX,
    ensures
        q / CANDIDATE_BLOCK_BYTES as nat - p / CANDIDATE_BLOCK_BYTES as nat <= slack(
            SearchExtent::Bytes { span },
            blocks,
            max_line_len,
        ),
{
}

/// The bytes of one line of a document whose longest line is known lie within the slack of any
/// block that the line touches.
pub proof fn line_stays_within_slack(p: nat, q: nat, max_line_len: u32, blocks: int)
    requires
        p <= q <= p + max_line_len,
        max_line_len < u32::MAX,
    ensures
        q / CANDIDATE_BLOCK_BYTES as nat - p / CANDIDATE_BLOCK_BYTES as nat <= slack(
            SearchExtent::Lines,
            blocks,
            max_line_len,
        ),
{
}

/// Ranges by document, as a model.
pub open spec fn group_views(groups: Seq<(u32, Vec<CandidateRange>)>) -> Seq<
    (u32, Seq<CandidateRange>),
> {
    Seq::new(groups.len(), |i: int| (groups[i].0, groups[i].1@))
}

/// One block as a range.
pub open spec fn one_block(local: u32, extent: SearchExtent) -> CandidateRange {
    CandidateRange { start: local, end: (local + 1) as u32, extent }
}

/// Add a block at the end: to the last range where it follows it, else as a range of its own, in
/// the last document or in a new one.
pub open spec fn add_block(
    groups: Seq<(u32, Seq<CandidateRange>)>,
    document: u32,
    local: u32,
    extent: SearchExtent,
) -> Seq<(u32, Seq<CandidateRange>)> {
    if groups.len() == 0 || groups.last().0 != document {
        groups.push((document, seq![one_block(local, extent)]))
    } else {
        let ranges = groups.last().1;
        let last = ranges.last();
        let grown = if last.end == local {
            ranges.drop_last().push(CandidateRange { end: (last.end + 1) as u32, ..last })
        } else {
            ranges.push(one_block(local, extent))
        };
        groups.drop_last().push((document, grown))
    }
}

/// The blocks of `ids` as ranges by document.
pub open spec fn grouped(ids: Seq<u32>, bases: Seq<u32>, extent: SearchExtent) -> Seq<
    (u32, Seq<CandidateRange>),
>
    decreases ids.len(),
{
    if ids.len() == 0 {
        Seq::empty()
    } else {
        let id = ids.last();
        let document = document_of(bases, id);
        add_block(
            grouped(ids.drop_last(), bases, extent),
            document as u32,
            (id - bases[document]) as u32,
            extent,
        )
    }
}

/// `id` is the first one that is not below `total`.
pub open spec fn first_outside(ids: Seq<u32>, total: u32, id: u32) -> bool {
    exists|k: int|
        0 <= k < ids.len() && #[trigger] ids[k] == id && id >= total && forall|j: int|
            0 <= j < k ==> ids[j] < total
}

/// Block ids that can be grouped by document.
pub open spec fn groupable(bases: Seq<u32>) -> bool {
    valid_bases(bases) && bases.len() <= 0x1_0000_0000
}

/// Every group has a range, and no range ends past the block count.
pub open spec fn groups_filled(groups: Seq<(u32, Seq<CandidateRange>)>) -> bool {
    forall|g: int| 0 <= g < groups.len() ==> (#[trigger] groups[g]).1.len() > 0
}

/// Candidate blocks by document, neighbours joined to ranges.
pub fn group_candidate_blocks(ids: &[u32], bases: &[u32], extent: SearchExtent) -> (groups: Result<
    Vec<(u32, Vec<CandidateRange>)>,
    IndexError,
>)
    requires
        groupable(bases@),
    ensures
        match groups {
            Ok(list) => extent != SearchExtent::Document && group_views(list@) == grouped(
                ids@,
                bases@,
                extent,
            ) && forall|k: int| 0 <= k < ids@.len() ==> ids@[k] < total_blocks(bases@),
            Err(IndexError::DocumentExtent) => extent == SearchExtent::Document,
            Err(IndexError::CandidateBlockBounds { id, total }) => extent != SearchExtent::Document
                && total == total_blocks(bases@) && first_outside(ids@, total, id),
            Err(_) => false,
        },
{
    let document_extent: bool = match extent {
        SearchExtent::Document => true,
        _ => false,
    };
    if document_extent {
        return Err(IndexError::DocumentExtent);
    }
    let total: u32 = if bases.len() == 0 { 0 } else { bases[bases.len() - 1] };
    let mut groups: Vec<(u32, Vec<CandidateRange>)> = Vec::new();
    let mut i: usize = 0;
    assert(group_views(groups@) =~= grouped(ids@.take(0), bases@, extent));
    while i < ids.len()
        invariant
            groupable(bases@),
            extent != SearchExtent::Document,
            total == total_blocks(bases@),
            i <= ids.len(),
            forall|k: int| 0 <= k < i ==> ids@[k] < total,
            group_views(groups@) == grouped(ids@.take(i as int), bases@, extent),
            groups_filled(group_views(groups@)),
        decreases ids.len() - i,
    {
        let id: u32 = ids[i];
        if id >= total {
            assert(first_outside(ids@, total, id));
            return Err(IndexError::CandidateBlockBounds { id, total });
        }
        let index: usize = get_block_document(id, bases);
        proof {
            lemma_block_document_unique(bases@, index as int, document_of(bases@, id), id);
            assert(ids@.take(i + 1).drop_last() =~= ids@.take(i as int));
            assert(ids@.take(i + 1).last() == id);
        }
        let document: u32 = index as u32;
        let local: u32 = id - bases[index];
        let ghost before = group_views(groups@);
        let same: bool = groups.len() > 0 && groups[groups.len() - 1].0 == document;
        if same {
            let last = groups.pop();
            assert(group_views(groups@) =~= before.drop_last());
            if let Some((_, ranges)) = last {
                assert(ranges@ == before.last().1);
                assert(ranges@.len() > 0);
                let mut ranges = ranges;
                let ghost old_ranges = ranges@;
                let tail: CandidateRange = ranges[ranges.len() - 1];
                if tail.end == local {
                    let mut grown = tail;
                    grown.end = local + 1;
                    ranges.pop();
                    ranges.push(grown);
                    assert(ranges@ =~= old_ranges.drop_last().push(
                        CandidateRange { end: (tail.end + 1) as u32, ..tail },
                    ));
                } else {
                    ranges.push(CandidateRange { start: local, end: local + 1, extent });
                    assert(ranges@ =~= old_ranges.push(one_block(local, extent)));
                }
                groups.push((document, ranges));
                assert(group_views(groups@) =~= add_block(before, document, local, extent));
            }
        } else {
            let mut ranges: Vec<CandidateRange> = Vec::new();
            ranges.push(CandidateRange { start: local, end: local + 1, extent });
            assert(ranges@ =~= seq![one_block(local, extent)]);
            groups.push((document, ranges));
            assert(group_views(groups@) =~= add_block(before, document, local, extent));
        }
        i = i + 1;
    }
    assert(ids@.take(i as int) =~= ids@);
    Ok(groups)
}

pub open spec fn range_covers(range: CandidateRange, block: u32) -> bool {
    range.start <= block < range.end
}

pub open spec fn ranges_cover(ranges: Seq<CandidateRange>, block: u32) -> bool {
    exists|r: int| 0 <= r < ranges.len() && range_covers(#[trigger] ranges[r], block)
}

/// Some group of `document` holds its block `local`.
pub open spec fn groups_cover(
    groups: Seq<(u32, Seq<CandidateRange>)>,
    document: u32,
    local: u32,
) -> bool {
    exists|g: int|
        0 <= g < groups.len() && (#[trigger] groups[g]).0 == document && ranges_cover(
            groups[g].1,
            local,
        )
}

proof fn lemma_add_block_covers(
    groups: Seq<(u32, Seq<CandidateRange>)>,
    document: u32,
    local: u32,
    extent: SearchExtent,
    d: u32,
    l: u32,
)
    requires
        groups_filled(groups),
        local < u32::MAX,
        forall|g: int, r: int|
            0 <= g < groups.len() && 0 <= r < (#[trigger] groups[g]).1.len() ==> (
            #[trigger] groups[g].1[r]).start < groups[g].1[r].end,
    ensures
        groups_cover(add_block(groups, document, local, extent), d, l) <==> groups_cover(
            groups,
            d,
            l,
        ) || (d == document && l == local),
{
    let out = add_block(groups, document, local, extent);
    if groups.len() == 0 || groups.last().0 != document {
        let one = seq![one_block(local, extent)];
        assert(out == groups.push((document, one)));
        if groups_cover(groups, d, l) {
            let g = choose|g: int|
                0 <= g < groups.len() && (#[trigger] groups[g]).0 == d && ranges_cover(
                    groups[g].1,
                    l,
                );
            assert(out[g] == groups[g]);
        }
        if d == document && l == local {
            assert(range_covers(one[0], l));
            assert(out[groups.len() as int].0 == d);
        }
        if groups_cover(out, d, l) {
            let g = choose|g: int|
                0 <= g < out.len() && (#[trigger] out[g]).0 == d && ranges_cover(out[g].1, l);
            if g < groups.len() {
                assert(groups[g] == out[g]);
            }
        }
    } else {
        let n = groups.len() - 1;
        let ranges = groups[n].1;
        let last = ranges.last();
        let grown = out[n].1;
        assert(out.len() == groups.len());
        assert(groups[n].1[ranges.len() - 1].start < last.end);
        if groups_cover(groups, d, l) {
            let g = choose|g: int|
                0 <= g < groups.len() && (#[trigger] groups[g]).0 == d && ranges_cover(
                    groups[g].1,
                    l,
                );
            if g < n {
                assert(out[g] == groups[g]);
            } else {
                let r = choose|r: int|
                    0 <= r < ranges.len() && range_covers(#[trigger] ranges[r], l);
                if r < ranges.len() - 1 {
                    assert(grown[r] == ranges[r]);
                } else {
                    assert(range_covers(grown[r], l));
                }
                assert(ranges_cover(grown, l));
                assert(out[n].0 == d);
            }
        }
        if d == document && l == local {
            assert(range_covers(grown[grown.len() - 1], l));
            assert(ranges_cover(grown, l));
            assert(out[n].0 == d);
        }
        if groups_cover(out, d, l) {
            let g = choose|g: int|
                0 <= g < out.len() && (#[trigger] out[g]).0 == d && ranges_cover(out[g].1, l);
            if g < n {
                assert(groups[g] == out[g]);
            } else {
                let r = choose|r: int|
                    0 <= r < grown.len() && range_covers(#[trigger] grown[r], l);
                if !(l == local) {
                    assert(r < ranges.len());
                    assert(range_covers(ranges[r], l));
                    assert(ranges_cover(ranges, l));
                    assert(groups[n].0 == d);
                }
            }
        }
    }
}

proof fn lemma_grouped_shape(ids: Seq<u32>, bases: Seq<u32>, extent: SearchExtent)
    requires
        groupable(bases),
        forall|k: int| 0 <= k < ids.len() ==> ids[k] < total_blocks(bases),
    ensures
        groups_filled(grouped(ids, bases, extent)),
        forall|g: int, r: int|
            0 <= g < grouped(ids, bases, extent).len() && 0 <= r < (#[trigger] grouped(
                ids,
                bases,
                extent,
            )[g]).1.len() ==> (#[trigger] grouped(ids, bases, extent)[g].1[r]).start < grouped(
                ids,
                bases,
                extent,
            )[g].1[r].end,
    decreases ids.len(),
{
    if ids.len() > 0 {
        lemma_grouped_shape(ids.drop_last(), bases, extent);
        let id = ids.last();
        assert(ids[ids.len() - 1] == id);
        let groups = grouped(ids.drop_last(), bases, extent);
        lemma_document_of(bases, id);
        let document = document_of(bases, id);
        let local = (id - bases[document]) as u32;
        let out = add_block(groups, document as u32, local, extent);
        assert forall|g: int| 0 <= g < out.len() implies (#[trigger] out[g]).1.len() > 0 by {
            if g < groups.len() - 1 {
                assert(out[g] == groups[g]);
            }
        }
        assert forall|g: int, r: int|
            0 <= g < out.len() && 0 <= r < (#[trigger] out[g]).1.len() implies (
        #[trigger] out[g].1[r]).start < out[g].1[r].end by {
            if g < groups.len() && !(g == groups.len() - 1 && groups.last().0
                == document as u32) {
                assert(out[g] == groups[g]);
                assert(groups[g].1[r].start < groups[g].1[r].end);
            } else if g < groups.len() {
                let ranges = groups[g].1;
                if r < ranges.len() {
                    assert(groups[g].1[r].start < groups[g].1[r].end);
                }
            }
        }
    }
}

/// A block below the count has a document.
pub proof fn lemma_document_of(bases: Seq<u32>, id: u32)
    requires
        valid_bases(bases),
        id < total_blocks(bases),
    ensures
        holds_block(bases, document_of(bases, id), id),
        document_of(bases, id) + 1 < bases.len(),
{
    let d = lemma_find_document(bases, id, bases.len() as int);
    assert(holds_block(bases, d, id));
    let chosen = document_of(bases, id);
    if chosen + 1 >= bases.len() {
        assert(bases[chosen] == bases.last());
    }
}

proof fn lemma_find_document(bases: Seq<u32>, id: u32, n: int) -> (d: int)
    requires
        valid_bases(bases),
        0 < n <= bases.len(),
        n < bases.len() ==> id < bases[n],
    ensures
        holds_block(bases, d, id),
    decreases n,
{
    if bases[n - 1] <= id {
        n - 1
    } else {
        lemma_find_document(bases, id, n - 1)
    }
}

/// Grouping neither loses nor adds a block.
pub proof fn grouping_keeps_blocks(ids: Seq<u32>, bases: Seq<u32>, extent: SearchExtent, id: u32)
    requires
        groupable(bases),
        forall|k: int| 0 <= k < ids.len() ==> ids[k] < total_blocks(bases),
        id < total_blocks(bases),
    ensures
        ids.contains(id) <==> groups_cover(
            grouped(ids, bases, extent),
            document_of(bases, id) as u32,
            (id - bases[document_of(bases, id)]) as u32,
        ),
    decreases ids.len(),
{
    lemma_document_of(bases, id);
    if ids.len() > 0 {
        let front = ids.drop_last();
        let last = ids.last();
        assert(ids[ids.len() - 1] == last);
        grouping_keeps_blocks(front, bases, extent, id);
        lemma_grouped_shape(front, bases, extent);
        lemma_document_of(bases, last);
        let ld = document_of(bases, last);
        let d = document_of(bases, id);
        lemma_add_block_covers(
            grouped(front, bases, extent),
            ld as u32,
            (last - bases[ld]) as u32,
            extent,
            d as u32,
            (id - bases[d]) as u32,
        );
        if ids.contains(id) {
            let k = choose|k: int| 0 <= k < ids.len() && ids[k] == id;
            if k < front.len() {
                assert(front[k] == id);
                assert(front.contains(id));
            }
        }
        if front.contains(id) {
            let k = choose|k: int| 0 <= k < front.len() && front[k] == id;
            assert(ids[k] == id);
        }
    }
}

/// The wider of two extents.
pub open spec fn broader(left: SearchExtent, right: SearchExtent) -> SearchExtent {
    match (left, right) {
        (SearchExtent::Document, _) => SearchExtent::Document,
        (_, SearchExtent::Document) => SearchExtent::Document,
        (SearchExtent::Lines, _) => SearchExtent::Lines,
        (_, SearchExtent::Lines) => SearchExtent::Lines,
        (SearchExtent::Bytes { span: a }, SearchExtent::Bytes { span: b }) => SearchExtent::Bytes {
            span: if a > b {
                a
            } else {
                b
            },
        },
    }
}

/// The extent that reaches as far as both.
pub fn pick_broader_extent(left: SearchExtent, right: SearchExtent) -> (extent: SearchExtent)
    ensures
        extent == broader(left, right),
        extent == left || extent == right,
        extent is Document <==> left is Document || right is Document,
        extent is Bytes <==> left is Bytes && right is Bytes,
        extent matches SearchExtent::Bytes { span } ==> left->span <= span && right->span <= span,
{
    match (left, right) {
        (SearchExtent::Document, _) => SearchExtent::Document,
        (_, SearchExtent::Document) => SearchExtent::Document,
        (SearchExtent::Lines, _) => SearchExtent::Lines,
        (_, SearchExtent::Lines) => SearchExtent::Lines,
        (SearchExtent::Bytes { span: a }, SearchExtent::Bytes { span: b }) => SearchExtent::Bytes {
            span: if a > b { a } else { b },
        },
    }
}

impl Keyed for CandidateRange {
    /// Ranges go by start, then by end.
    open spec fn key(&self) -> (int, int, int, int, int) {
        (self.start as int, self.end as int, 0, 0, 0)
    }

    fn precedes(&self, other: &CandidateRange) -> (before: bool) {
        self.start < other.start || (self.start == other.start && self.end < other.end)
    }
}

/// The next range overlaps the last one, or continues it with the same extent.
pub open spec fn absorbs(last: CandidateRange, range: CandidateRange) -> bool {
    range.start < last.end || (range.start == last.end && range.extent == last.extent)
}

/// Absorb a range: the further end, and the broader extent where the two overlap.
pub open spec fn absorbed(last: CandidateRange, range: CandidateRange) -> CandidateRange {
    CandidateRange {
        start: last.start,
        end: if last.end > range.end {
            last.end
        } else {
            range.end
        },
        extent: if range.start < last.end {
            broader(last.extent, range.extent)
        } else {
            last.extent
        },
    }
}

pub open spec fn merge_step(merged: Seq<CandidateRange>, range: CandidateRange) -> Seq<
    CandidateRange,
> {
    if merged.len() > 0 && absorbs(merged.last(), range) {
        merged.drop_last().push(absorbed(merged.last(), range))
    } else {
        merged.push(range)
    }
}

/// Sorted ranges with overlaps merged.
pub open spec fn merge_sorted(ranges: Seq<CandidateRange>) -> Seq<CandidateRange>
    decreases ranges.len(),
{
    if ranges.len() == 0 {
        ranges
    } else {
        merge_step(merge_sorted(ranges.drop_last()), ranges.last())
    }
}

/// The ranges of both lists, sorted and merged.
pub open spec fn merged_ranges(current: Seq<CandidateRange>, incoming: Seq<CandidateRange>) -> Seq<
    CandidateRange,
> {
    merge_sorted(crate::sorting::sort_items(current + incoming))
}

/// Add ranges to a document's ranges.
pub fn merge_candidate_ranges(current: &mut Vec<CandidateRange>, incoming: Vec<CandidateRange>)
    ensures
        final(current)@ == merged_ranges(old(current)@, incoming@),
{
    let ghost given = current@ + incoming@;
    let mut incoming = incoming;
    let mut all: Vec<CandidateRange> = Vec::new();
    all.append(current);
    all.append(&mut incoming);
    assert(all@ =~= given);
    let sorted = stable_sort(all);
    let mut merged: Vec<CandidateRange> = Vec::new();
    let mut i: usize = 0;
    assert(merged@ =~= merge_sorted(sorted@.take(0)));
    while i < sorted.len()
        invariant
            i <= sorted.len(),
            merged@ == merge_sorted(sorted@.take(i as int)),
        decreases sorted.len() - i,
    {
        let range: CandidateRange = sorted[i];
        let ghost before = merged@;
        assert(sorted@.take(i + 1).drop_last() =~= sorted@.take(i as int));
        let mut absorb: bool = false;
        if merged.len() > 0 {
            let last: CandidateRange = merged[merged.len() - 1];
            let overlaps: bool = range.start < last.end;
            let joins: bool = range.start == last.end && range.extent == last.extent;
            if overlaps || joins {
                let mut grown = last;
                if range.end > last.end {
                    grown.end = range.end;
                }
                if overlaps {
                    grown.extent = pick_broader_extent(last.extent, range.extent);
                }
                merged.pop();
                merged.push(grown);
                absorb = true;
            }
        }
        if !absorb {
            merged.push(range);
        }
        assert(merged@ =~= merge_step(before, range));
        i = i + 1;
    }
    assert(sorted@.take(i as int) =~= sorted@);
    *current = merged;
}

/// Starts never go down.
spec fn starts_ordered(ranges: Seq<CandidateRange>) -> bool {
    forall|i: int, j: int| 0 <= i <= j < ranges.len() ==> ranges[i].start <= ranges[j].start
}

/// Some range covers `block` with at least `extent`.
pub open spec fn covered_broadly(
    ranges: Seq<CandidateRange>,
    block: u32,
    extent: SearchExtent,
) -> bool {
    exists|r: int|
        0 <= r < ranges.len() && range_covers(#[trigger] ranges[r], block) && broader(
            ranges[r].extent,
            extent,
        ) == ranges[r].extent
}

proof fn lemma_merge_step_covers(
    merged: Seq<CandidateRange>,
    range: CandidateRange,
    block: u32,
    extent: SearchExtent,
)
    requires
        merged.len() > 0 ==> merged.last().start <= range.start,
    ensures
        ranges_cover(merge_step(merged, range), block) <==> ranges_cover(merged, block)
            || range_covers(range, block),
        covered_broadly(merged, block, extent) || (range_covers(range, block) && broader(
            range.extent,
            extent,
        ) == range.extent) ==> covered_broadly(merge_step(merged, range), block, extent),
        merge_step(merged, range).len() > 0,
        merge_step(merged, range).last().start <= range.start,
{
    let out = merge_step(merged, range);
    let n = out.len() - 1;
    if merged.len() > 0 && absorbs(merged.last(), range) {
        let last = merged.last();
        let grown = absorbed(last, range);
        assert(merged[n] == last);
        assert(out[n] == grown);
        assert(range_covers(grown, block) <==> range_covers(last, block) || range_covers(
            range,
            block,
        ));
        if ranges_cover(merged, block) {
            let r = choose|r: int|
                0 <= r < merged.len() && range_covers(#[trigger] merged[r], block);
            if r < n {
                assert(out[r] == merged[r]);
            }
            assert(range_covers(out[r], block));
        }
        if range_covers(range, block) {
            assert(range_covers(out[n], block));
        }
        if ranges_cover(out, block) {
            let r = choose|r: int| 0 <= r < out.len() && range_covers(#[trigger] out[r], block);
            if r < n {
                assert(merged[r] == out[r]);
            } else if !range_covers(range, block) {
                assert(range_covers(merged[n], block));
            }
        }
        if covered_broadly(merged, block, extent) {
            let r = choose|r: int|
                0 <= r < merged.len() && range_covers(#[trigger] merged[r], block) && broader(
                    merged[r].extent,
                    extent,
                ) == merged[r].extent;
            if r < n {
                assert(out[r] == merged[r]);
            }
            assert(range_covers(out[r], block));
        }
        if range_covers(range, block) && broader(range.extent, extent) == range.extent {
            assert(range_covers(out[n], block));
        }
    } else {
        assert(out[n] == range);
        if ranges_cover(merged, block) {
            let r = choose|r: int|
                0 <= r < merged.len() && range_covers(#[trigger] merged[r], block);
            assert(out[r] == merged[r]);
        }
        if ranges_cover(out, block) {
            let r = choose|r: int| 0 <= r < out.len() && range_covers(#[trigger] out[r], block);
            if r < n {
                assert(merged[r] == out[r]);
            }
        }
        if covered_broadly(merged, block, extent) {
            let r = choose|r: int|
                0 <= r < merged.len() && range_covers(#[trigger] merged[r], block) && broader(
                    merged[r].extent,
                    extent,
                ) == merged[r].extent;
            assert(out[r] == merged[r]);
        }
    }
}

proof fn lemma_merge_sorted_covers(ranges: Seq<CandidateRange>, block: u32, extent: SearchExtent)
    requires
        starts_ordered(ranges),
    ensures
        ranges_cover(merge_sorted(ranges), block) <==> ranges_cover(ranges, block),
        covered_broadly(ranges, block, extent) ==> covered_broadly(
            merge_sorted(ranges),
            block,
            extent,
        ),
        ranges.len() > 0 ==> merge_sorted(ranges).len() > 0 && merge_sorted(ranges).last().start
            <= ranges.last().start,
    decreases ranges.len(),
{
    if ranges.len() > 0 {
        let front = ranges.drop_last();
        let n = ranges.len() - 1;
        lemma_merge_sorted_covers(front, block, extent);
        if front.len() > 0 {
            assert(ranges[n - 1].start <= ranges[n].start);
        } else {
            assert(merge_sorted(front) =~= Seq::<CandidateRange>::empty());
        }
        lemma_merge_step_covers(merge_sorted(front), ranges.last(), block, extent);
        if ranges_cover(ranges, block) {
            let r = choose|r: int|
                0 <= r < ranges.len() && range_covers(#[trigger] ranges[r], block);
            if r < n {
                assert(front[r] == ranges[r]);
            }
        }
        if ranges_cover(front, block) {
            let r = choose|r: int| 0 <= r < front.len() && range_covers(#[trigger] front[r], block);
            assert(ranges[r] == front[r]);
        }
        if range_covers(ranges.last(), block) {
            assert(range_covers(ranges[n], block));
        }
        if covered_broadly(ranges, block, extent) {
            let r = choose|r: int|
                0 <= r < ranges.len() && range_covers(#[trigger] ranges[r], block) && broader(
                    ranges[r].extent,
                    extent,
                ) == ranges[r].extent;
            if r < n {
                assert(front[r] == ranges[r]);
                assert(covered_broadly(front, block, extent));
            }
        }
    }
}

/// Merging covers exactly the blocks of both lists, and no block's extent narrows.
pub proof fn merging_keeps_blocks(
    current: Seq<CandidateRange>,
    incoming: Seq<CandidateRange>,
    block: u32,
    extent: SearchExtent,
)
    ensures
        ranges_cover(merged_ranges(current, incoming), block) <==> ranges_cover(current, block)
            || ranges_cover(incoming, block),
        covered_broadly(current, block, extent) || covered_broadly(incoming, block, extent)
            ==> covered_broadly(merged_ranges(current, incoming), block, extent),
{
    let both = current + incoming;
    let sorted = crate::sorting::sort_items(both);
    crate::sorting::sorting_orders_and_keeps(both);
    assert(starts_ordered(sorted)) by {
        assert forall|i: int, j: int| 0 <= i <= j < sorted.len() implies sorted[i].start
            <= sorted[j].start by {
            if i < j {
                assert(!crate::sorting::key_less(sorted[j].key(), sorted[i].key()));
            }
        }
    }
    lemma_merge_sorted_covers(sorted, block, extent);
    if ranges_cover(current, block) {
        let r = choose|r: int| 0 <= r < current.len() && range_covers(#[trigger] current[r], block);
        assert(both[r] == current[r]);
        assert(sorted.contains(both[r]));
    }
    if ranges_cover(incoming, block) {
        let r = choose|r: int|
            0 <= r < incoming.len() && range_covers(#[trigger] incoming[r], block);
        assert(both[current.len() + r] == incoming[r]);
        assert(sorted.contains(both[current.len() + r]));
    }
    if ranges_cover(sorted, block) {
        let r = choose|r: int| 0 <= r < sorted.len() && range_covers(#[trigger] sorted[r], block);
        assert(sorted.contains(sorted[r]));
        let k = choose|k: int| 0 <= k < both.len() && both[k] == sorted[r];
        if k < current.len() {
            assert(range_covers(current[k], block));
        } else {
            assert(range_covers(incoming[k - current.len()], block));
        }
    }
    if covered_broadly(current, block, extent) {
        let r = choose|r: int|
            0 <= r < current.len() && range_covers(#[trigger] current[r], block) && broader(
                current[r].extent,
                extent,
            ) == current[r].extent;
        assert(both[r] == current[r]);
        assert(sorted.contains(both[r]));
        let k = choose|k: int| 0 <= k < sorted.len() && sorted[k] == both[r];
        assert(range_covers(sorted[k], block));
    }
    if covered_broadly(incoming, block, extent) {
        let r = choose|r: int|
            0 <= r < incoming.len() && range_covers(#[trigger] incoming[r], block) && broader(
                incoming[r].extent,
                extent,
            ) == incoming[r].extent;
        assert(both[current.len() + r] == incoming[r]);
        assert(sorted.contains(both[current.len() + r]));
        let k = choose|k: int| 0 <= k < sorted.len() && sorted[k] == both[current.len() + r];
        assert(range_covers(sorted[k], block));
    }
}

/// Candidate ranges by document; `None` stands for the whole document.
pub open spec fn range_views(documents: Map<u32, Option<Vec<CandidateRange>>>) -> Map<
    u32,
    Option<Seq<CandidateRange>>,
> {
    Map::new(
        |d: u32| documents.contains_key(d),
        |d: u32|
            match documents[d] {
                None => None,
                Some(ranges) => Some(ranges@),
            },
    )
}

/// Whole documents added to the candidates.
pub open spec fn with_whole(
    documents: Map<u32, Option<Seq<CandidateRange>>>,
    added: Set<u32>,
) -> Map<u32, Option<Seq<CandidateRange>>> {
    Map::new(
        |d: u32| documents.contains_key(d) || added.contains(d),
        |d: u32|
            if added.contains(d) {
                None
            } else {
                documents[d]
            },
    )
}

/// Ranges of one document added to the candidates; a whole document stays whole.
pub open spec fn with_ranges(
    documents: Map<u32, Option<Seq<CandidateRange>>>,
    document: u32,
    ranges: Seq<CandidateRange>,
) -> Map<u32, Option<Seq<CandidateRange>>> {
    if documents.contains_key(document) {
        match documents[document] {
            None => documents,
            Some(current) => documents.insert(document, Some(merged_ranges(current, ranges))),
        }
    } else {
        documents.insert(document, Some(merged_ranges(Seq::empty(), ranges)))
    }
}

pub open spec fn with_groups(
    documents: Map<u32, Option<Seq<CandidateRange>>>,
    groups: Seq<(u32, Seq<CandidateRange>)>,
) -> Map<u32, Option<Seq<CandidateRange>>>
    decreases groups.len(),
{
    if groups.len() == 0 {
        documents
    } else {
        with_ranges(with_groups(documents, groups.drop_last()), groups.last().0, groups.last().1)
    }
}

/// The documents of blocks `ids`.
pub open spec fn documents_of(ids: Seq<u32>, bases: Seq<u32>) -> Set<u32> {
    Set::new(|d: u32| exists|k: int| 0 <= k < ids.len() && d == document_of(bases, #[trigger] ids[k]))
}

/// The candidates with one pattern's selection added.
pub open spec fn with_selection(
    documents: Map<u32, Option<Seq<CandidateRange>>>,
    selection: Selection,
    extent: SearchExtent,
    strategy: Strategy,
    document_count: u32,
    bases: Option<Seq<u32>>,
) -> Map<u32, Option<Seq<CandidateRange>>> {
    match selection {
        Selection::All => with_whole(documents, Set::new(|d: u32| d < document_count)),
        Selection::Ids(ids) => if strategy == Strategy::Sparse {
            with_whole(documents, crate::ids::id_set(ids@))
        } else if extent == SearchExtent::Document {
            with_whole(documents, documents_of(ids@, bases->0))
        } else {
            with_groups(documents, grouped(ids@, bases->0, extent))
        },
    }
}

pub open spec fn bases_view(bases: Option<&[u32]>) -> Option<Seq<u32>> {
    match bases {
        Some(list) => Some(list@),
        None => None,
    }
}

/// Every selected id names a document or a block that there is.
pub open spec fn selection_fits(
    selection: Selection,
    strategy: Strategy,
    document_count: u32,
    bases: Option<Seq<u32>>,
) -> bool {
    match selection {
        Selection::All => true,
        Selection::Ids(ids) => if strategy == Strategy::Sparse {
            forall|k: int| 0 <= k < ids@.len() ==> ids@[k] < document_count
        } else {
            bases is Some && forall|k: int|
                0 <= k < ids@.len() ==> ids@[k] < total_blocks(bases->0)
        },
    }
}

/// How adding a selection that does not fit fails.
pub open spec fn selection_error(
    selection: Selection,
    strategy: Strategy,
    document_count: u32,
    bases: Option<Seq<u32>>,
    error: IndexError,
) -> bool {
    match selection {
        Selection::All => false,
        Selection::Ids(ids) => if strategy == Strategy::Sparse {
            error matches IndexError::CandidateDocumentBounds { id, document_count: limit } && limit
                == document_count && first_outside(ids@, document_count, id)
        } else if bases is None {
            error == IndexError::MissingBlockBases
        } else {
            error matches IndexError::CandidateBlockBounds { id, total } && total == total_blocks(
                bases->0,
            ) && first_outside(ids@, total, id)
        },
    }
}

fn insert_whole(documents: &mut BTreeMap<u32, Option<Vec<CandidateRange>>>, document: u32)
    ensures
        range_views(final(documents)@) == with_whole(
            range_views(old(documents)@),
            set![document],
        ),
{
    broadcast use vstd::std_specs::btree::group_btree_axioms;

    documents.insert(document, None);
    assert(range_views(documents@) =~= with_whole(range_views(old(documents)@), set![document]));
}

fn insert_ranges(
    documents: &mut BTreeMap<u32, Option<Vec<CandidateRange>>>,
    document: u32,
    ranges: Vec<CandidateRange>,
)
    ensures
        range_views(final(documents)@) == with_ranges(
            range_views(old(documents)@),
            document,
            ranges@,
        ),
{
    broadcast use vstd::std_specs::btree::group_btree_axioms;

    let ghost before = documents@;
    match documents.remove(&document) {
        None => {
            let mut current: Vec<CandidateRange> = Vec::new();
            merge_candidate_ranges(&mut current, ranges);
            documents.insert(document, Some(current));
        },
        Some(None) => {
            documents.insert(document, None);
        },
        Some(Some(current)) => {
            let mut current = current;
            merge_candidate_ranges(&mut current, ranges);
            documents.insert(document, Some(current));
        },
    }
    assert(range_views(documents@) =~= with_ranges(range_views(before), document, ranges@));
}

/// Add one pattern's selection to the candidates.
#[verifier::rlimit(30)]
pub fn add_candidate_selection(
    documents: &mut BTreeMap<u32, Option<Vec<CandidateRange>>>,
    selection: Selection,
    extent: SearchExtent,
    strategy: Strategy,
    document_count: u32,
    block_bases: Option<&[u32]>,
) -> (added: Result<(), IndexError>)
    requires
        block_bases matches Some(bases) ==> groupable(bases@),
    ensures
        match added {
            Ok(_) => range_views(final(documents)@) == with_selection(
                range_views(old(documents)@),
                selection,
                extent,
                strategy,
                document_count,
                bases_view(block_bases),
            ),
            Err(e) => selection_error(
                selection,
                strategy,
                document_count,
                bases_view(block_bases),
                e,
            ),
        },
        added is Ok <==> selection_fits(
            selection,
            strategy,
            document_count,
            bases_view(block_bases),
        ),
{
    let ghost before = range_views(documents@);
    let ids = match selection {
        Selection::All => {
            let mut d: u32 = 0;
            assert(range_views(documents@) =~= with_whole(
                before,
                Set::new(|x: u32| x < 0),
            ));
            while d < document_count
                invariant
                    d <= document_count,
                    range_views(documents@) == with_whole(before, Set::new(|x: u32| x < d)),
                decreases document_count - d,
            {
                insert_whole(documents, d);
                assert(range_views(documents@) =~= with_whole(
                    before,
                    Set::new(|x: u32| x < d + 1),
                ));
                d = d + 1;
            }
            return Ok(());
        },
        Selection::Ids(ids) => ids,
    };
    let sparse: bool = match strategy {
        Strategy::Sparse => true,
        Strategy::Trigram => false,
    };
    if sparse {
        let mut i: usize = 0;
        assert(range_views(documents@) =~= with_whole(
            before,
            crate::ids::id_set(ids@.take(0)),
        ));
        while i < ids.len()
            invariant
                i <= ids.len(),
                selection == Selection::Ids(ids),
                strategy == Strategy::Sparse,
                forall|k: int| 0 <= k < i ==> ids@[k] < document_count,
                range_views(documents@) == with_whole(
                    before,
                    crate::ids::id_set(ids@.take(i as int)),
                ),
            decreases ids.len() - i,
        {
            let document: u32 = ids[i];
            if document >= document_count {
                assert(ids@[i as int] == document);
                assert(first_outside(ids@, document_count, document));
                return Err(
                    IndexError::CandidateDocumentBounds { id: document, document_count },
                );
            }
            insert_whole(documents, document);
            proof {
                lemma_id_set_step(ids@, i as int);
                assert(range_views(documents@) =~= with_whole(
                    before,
                    crate::ids::id_set(ids@.take(i + 1)),
                ));
            }
            i = i + 1;
        }
        assert(ids@.take(i as int) =~= ids@);
        return Ok(());
    }
    let bases = match block_bases {
        Some(bases) => bases,
        None => {
            assert(selection_error(
                selection,
                strategy,
                document_count,
                None,
                IndexError::MissingBlockBases,
            ));
            return Err(IndexError::MissingBlockBases);
        },
    };
    let document_extent: bool = match extent {
        SearchExtent::Document => true,
        _ => false,
    };
    if document_extent {
        let total: u32 = if bases.len() == 0 { 0 } else { bases[bases.len() - 1] };
        let mut i: usize = 0;
        assert(range_views(documents@) =~= with_whole(
            before,
            documents_of(ids@.take(0), bases@),
        ));
        while i < ids.len()
            invariant
                i <= ids.len(),
                groupable(bases@),
                total == total_blocks(bases@),
                selection == Selection::Ids(ids),
                strategy == Strategy::Trigram,
                block_bases == Some(bases),
                forall|k: int| 0 <= k < i ==> ids@[k] < total,
                range_views(documents@) == with_whole(
                    before,
                    documents_of(ids@.take(i as int), bases@),
                ),
            decreases ids.len() - i,
        {
            let id: u32 = ids[i];
            if id >= total {
                assert(ids@[i as int] == id);
                assert(first_outside(ids@, total, id));
                return Err(IndexError::CandidateBlockBounds { id, total });
            }
            let document: usize = get_block_document(id, bases);
            insert_whole(documents, document as u32);
            proof {
                lemma_block_document_unique(
                    bases@,
                    document as int,
                    document_of(bases@, id),
                    id,
                );
                lemma_documents_of_step(ids@, bases@, i as int);
                assert(range_views(documents@) =~= with_whole(
                    before,
                    documents_of(ids@.take(i + 1), bases@),
                ));
            }
            i = i + 1;
        }
        assert(ids@.take(i as int) =~= ids@);
        return Ok(());
    }
    let groups = match group_candidate_blocks(ids.as_slice(), bases, extent) {
        Ok(groups) => groups,
        Err(e) => return Err(e),
    };
    let ghost views = group_views(groups@);
    let mut rest = groups;
    let ghost all = rest@;
    let mut i: usize = 0;
    assert(views.take(0) =~= Seq::<(u32, Seq<CandidateRange>)>::empty());
    while i < rest.len()
        invariant
            i <= rest.len(),
            rest.len() == all.len(),
            views == group_views(all),
            forall|k: int| i <= k < rest.len() ==> rest@[k] == all[k],
            range_views(documents@) == with_groups(before, views.take(i as int)),
        decreases rest.len() - i,
    {
        let mut group: (u32, Vec<CandidateRange>) = (0, Vec::new());
        std::mem::swap(&mut rest[i], &mut group);
        assert(group == all[i as int]);
        assert(views.take(i + 1).drop_last() =~= views.take(i as int));
        assert(views.take(i + 1).last() == (group.0, group.1@));
        insert_ranges(documents, group.0, group.1);
        i = i + 1;
    }
    assert(views.take(i as int) =~= views);
    Ok(())
}

proof fn lemma_id_set_step(ids: Seq<u32>, i: int)
    requires
        0 <= i < ids.len(),
    ensures
        crate::ids::id_set(ids.take(i + 1)) == crate::ids::id_set(ids.take(i)).insert(ids[i]),
{
    let front = ids.take(i);
    let grown = ids.take(i + 1);
    assert forall|x: u32| grown.contains(x) <==> front.contains(x) || x == ids[i] by {
        if grown.contains(x) {
            let k = choose|k: int| 0 <= k < grown.len() && grown[k] == x;
            if k < i {
                assert(front[k] == x);
            }
        }
        if front.contains(x) {
            let k = choose|k: int| 0 <= k < front.len() && front[k] == x;
            assert(grown[k] == x);
        }
        assert(grown[i] == ids[i]);
    }
    assert(crate::ids::id_set(grown) =~= crate::ids::id_set(front).insert(ids[i]));
}

proof fn lemma_documents_of_step(ids: Seq<u32>, bases: Seq<u32>, i: int)
    requires
        0 <= i < ids.len(),
        0 <= document_of(bases, ids[i]) <= u32::MAX,
    ensures
        documents_of(ids.take(i + 1), bases) == documents_of(ids.take(i), bases).insert(
            document_of(bases, ids[i]) as u32,
        ),
{
    let front = ids.take(i);
    let grown = ids.take(i + 1);
    let d0 = document_of(bases, ids[i]) as u32;
    assert forall|d: u32| documents_of(grown, bases).contains(d) <==> documents_of(
        front,
        bases,
    ).contains(d) || d == d0 by {
        if documents_of(grown, bases).contains(d) {
            let k = choose|k: int|
                0 <= k < grown.len() && d == document_of(bases, #[trigger] grown[k]);
            if k < i {
                assert(front[k] == grown[k]);
            }
        }
        if documents_of(front, bases).contains(d) {
            let k = choose|k: int|
                0 <= k < front.len() && d == document_of(bases, #[trigger] front[k]);
            assert(grown[k] == front[k]);
        }
        assert(grown[i] == ids[i]);
    }
    assert(documents_of(grown, bases) =~= documents_of(front, bases).insert(d0));
}

/// Block `local` of `document` is among the candidates.
pub open spec fn is_candidate(
    documents: Map<u32, Option<Seq<CandidateRange>>>,
    document: u32,
    local: u32,
) -> bool {
    documents.contains_key(document) && (documents[document] matches Some(ranges) ==> ranges_cover(
        ranges,
        local,
    ))
}

proof fn lemma_with_ranges_candidates(
    documents: Map<u32, Option<Seq<CandidateRange>>>,
    document: u32,
    ranges: Seq<CandidateRange>,
    d: u32,
    l: u32,
)
    ensures
        is_candidate(documents, d, l) || (d == document && ranges_cover(ranges, l))
            ==> is_candidate(with_ranges(documents, document, ranges), d, l),
{
    if d == document {
        if documents.contains_key(document) {
            if let Some(current) = documents[document] {
                merging_keeps_blocks(current, ranges, l, SearchExtent::Document);
            }
        } else {
            merging_keeps_blocks(Seq::empty(), ranges, l, SearchExtent::Document);
        }
    }
}

proof fn lemma_with_groups_candidates(
    documents: Map<u32, Option<Seq<CandidateRange>>>,
    groups: Seq<(u32, Seq<CandidateRange>)>,
    d: u32,
    l: u32,
)
    ensures
        is_candidate(documents, d, l) || groups_cover(groups, d, l) ==> is_candidate(
            with_groups(documents, groups),
            d,
            l,
        ),
    decreases groups.len(),
{
    if groups.len() > 0 {
        let front = groups.drop_last();
        lemma_with_groups_candidates(documents, front, d, l);
        lemma_with_ranges_candidates(
            with_groups(documents, front),
            groups.last().0,
            groups.last().1,
            d,
            l,
        );
        if groups_cover(groups, d, l) {
            let g = choose|g: int|
                0 <= g < groups.len() && (#[trigger] groups[g]).0 == d && ranges_cover(
                    groups[g].1,
                    l,
                );
            if g < front.len() {
                assert(front[g] == groups[g]);
            }
        }
    }
}

/// Adding a selection drops no candidate, and every selected trigram block becomes one, whatever
/// its extent.
pub proof fn selected_blocks_become_candidates(
    documents: Map<u32, Option<Seq<CandidateRange>>>,
    selection: Selection,
    extent: SearchExtent,
    document_count: u32,
    bases: Seq<u32>,
    id: u32,
)
    requires
        groupable(bases),
        bases.len() == document_count + 1,
        selection_fits(selection, Strategy::Trigram, document_count, Some(bases)),
        id < total_blocks(bases),
        selection matches Selection::Ids(ids) ==> ids@.contains(id) || is_candidate(
            documents,
            document_of(bases, id) as u32,
            (id - bases[document_of(bases, id)]) as u32,
        ),
    ensures
        is_candidate(
            with_selection(
                documents,
                selection,
                extent,
                Strategy::Trigram,
                document_count,
                Some(bases),
            ),
            document_of(bases, id) as u32,
            (id - bases[document_of(bases, id)]) as u32,
        ),
{
    lemma_document_of(bases, id);
    let d = document_of(bases, id);
    let local = (id - bases[d]) as u32;
    if let Selection::Ids(ids) = selection {
        if extent == SearchExtent::Document {
            if ids@.contains(id) {
                let k = choose|k: int| 0 <= k < ids@.len() && ids@[k] == id;
                assert(document_of(bases, ids@[k]) == d as u32);
            }
        } else {
            grouping_keeps_blocks(ids@, bases, extent, id);
            lemma_with_groups_candidates(
                documents,
                grouped(ids@, bases, extent),
                d as u32,
                local,
            );
        }
    }
}

/// Resolve the queries of several plans.
pub fn bind_queries<L: TermLookup>(
    plans: &[CandidatePlan<'_>],
    id_space: u32,
    strategy: Strategy,
    terms: &L,
) -> (bound: Result<Vec<Resolved>, IndexError>)
    ensures
        match bound {
            Ok(list) => list@.len() == plans@.len() && forall|i: int|
                0 <= i < plans@.len() ==> crate::eval::resolution(
                    *plans@[i].query,
                    id_space,
                    strategy,
                    *terms,
                ) == Ok::<crate::eval::Plan, IndexError>((#[trigger] list@[i]).plan()),
            Err(e) => exists|k: int|
                0 <= k < plans@.len() && crate::eval::resolution(
                    *(#[trigger] plans@[k]).query,
                    id_space,
                    strategy,
                    *terms,
                ) == Err::<crate::eval::Plan, IndexError>(e) && forall|j: int|
                    0 <= j < k ==> crate::eval::resolution(
                        *(#[trigger] plans@[j]).query,
                        id_space,
                        strategy,
                        *terms,
                    ) is Ok,
        },
{
    let mut bound: Vec<Resolved> = Vec::new();
    let mut i: usize = 0;
    while i < plans.len()
        invariant
            i <= plans.len(),
            bound@.len() == i,
            forall|k: int|
                0 <= k < i ==> crate::eval::resolution(
                    *plans@[k].query,
                    id_space,
                    strategy,
                    *terms,
                ) == Ok::<crate::eval::Plan, IndexError>((#[trigger] bound@[k]).plan()),
        decreases plans.len() - i,
    {
        match resolve(plans[i].query, id_space, strategy, terms) {
            Ok(resolved) => bound.push(resolved),
            Err(e) => {
                assert forall|j: int| 0 <= j < i implies crate::eval::resolution(
                    *(#[trigger] plans@[j]).query,
                    id_space,
                    strategy,
                    *terms,
                ) is Ok by {
                    assert(crate::eval::resolution(
                        *plans@[j].query,
                        id_space,
                        strategy,
                        *terms,
                    ) == Ok::<crate::eval::Plan, IndexError>(bound@[j].plan()));
                }
                assert(plans@[i as int].query == plans@[i as int].query);
                return Err(e);
            },
        }
        i = i + 1;
    }
    Ok(bound)
}

/// The posting blocks that several plans need together.
pub fn needed_blocks(bound: &[Resolved]) -> (needed: BTreeMap<u64, (u32, u64)>)
    ensures
        needed@ == crate::eval::needed_from(crate::eval::plans(bound@), 0, Map::empty()),
{
    let mut needed: BTreeMap<u64, (u32, u64)> = BTreeMap::new();
    let mut i: usize = 0;
    while i < bound.len()
        invariant
            i <= bound.len(),
            crate::eval::needed_from(crate::eval::plans(bound@), 0, Map::empty())
                == crate::eval::needed_from(crate::eval::plans(bound@), i as nat, needed@),
        decreases bound.len() - i,
    {
        blocks_needed(&bound[i], &mut needed);
        i = i + 1;
    }
    needed
}

/// What one plan selects: trigram block ids widened within their documents, document ids as they
/// are.
pub open spec fn plan_selection(
    plan: crate::eval::Plan,
    blocks: Map<u64, Vec<u32>>,
    strategy: Strategy,
    expansion: BlockExpansion,
) -> Result<Option<Set<u32>>, IndexError> {
    match strategy {
        Strategy::Trigram => crate::eval::select(plan, blocks, expansion),
        Strategy::Sparse => crate::eval::select(plan, blocks, NoExpansion),
    }
}

pub open spec fn expansion_of<'a>(
    bases: &'a [u32],
    tables: &'a SegmentTables,
    extent: SearchExtent,
) -> BlockExpansion<'a> {
    BlockExpansion { bases, tables, extent }
}

/// Evaluate every bound plan over the fetched blocks, in order.
pub fn visit_candidate_selections(
    plans: &[CandidatePlan<'_>],
    bound: &[Resolved],
    strategy: Strategy,
    blocks: &BTreeMap<u64, Vec<u32>>,
    bases: &[u32],
    tables: &SegmentTables,
) -> (selections: Result<Vec<Selection>, IndexError>)
    requires
        plans@.len() == bound@.len(),
        forall|i: int| 0 <= i < plans@.len() ==> !zero_span(#[trigger] plans@[i].extent),
        strategy == Strategy::Trigram ==> valid_bases(bases@) && bases@.len()
            == tables.documents@.len() + 1,
        forall|offset: u64| #[trigger]
            blocks@.contains_key(offset) ==> crate::posting_block::ids_within(
                blocks@[offset]@,
                if strategy == Strategy::Trigram {
                    total_blocks(bases@) as nat
                } else {
                    0x1_0000_0000
                },
            ),
        forall|i: int|
            0 <= i < bound@.len() && strategy == Strategy::Trigram ==> crate::eval::docs_accepted(
                (#[trigger] bound@[i]).plan(),
                crate::eval::below(total_blocks(bases@)),
            ),
    ensures
        match selections {
            Ok(list) => list@.len() == bound@.len() && forall|i: int|
                0 <= i < bound@.len() ==> plan_selection(
                    bound@[i].plan(),
                    blocks@,
                    strategy,
                    expansion_of(bases, tables, plans@[i].extent),
                ) == Ok::<Option<Set<u32>>, IndexError>((#[trigger] list@[i]).ids()) && (
                list@[i] matches Selection::Ids(ids) ==> crate::ids::ascending(ids@)),
            Err(e) => exists|k: int|
                0 <= k < bound@.len() && plan_selection(
                    (#[trigger] bound@[k]).plan(),
                    blocks@,
                    strategy,
                    expansion_of(bases, tables, plans@[k].extent),
                ) == Err::<Option<Set<u32>>, IndexError>(e) && forall|j: int|
                    0 <= j < k ==> plan_selection(
                        (#[trigger] bound@[j]).plan(),
                        blocks@,
                        strategy,
                        expansion_of(bases, tables, plans@[j].extent),
                    ) is Ok,
        },
{
    let mut selections: Vec<Selection> = Vec::new();
    let mut i: usize = 0;
    while i < bound.len()
        invariant
            i <= bound.len(),
            plans@.len() == bound@.len(),
            selections@.len() == i,
            forall|k: int| 0 <= k < plans@.len() ==> !zero_span(#[trigger] plans@[k].extent),
            strategy == Strategy::Trigram ==> valid_bases(bases@) && bases@.len()
                == tables.documents@.len() + 1,
            forall|offset: u64| #[trigger]
                blocks@.contains_key(offset) ==> crate::posting_block::ids_within(
                    blocks@[offset]@,
                    if strategy == Strategy::Trigram {
                        total_blocks(bases@) as nat
                    } else {
                        0x1_0000_0000
                    },
                ),
            forall|k: int|
                0 <= k < bound@.len() && strategy == Strategy::Trigram
                    ==> crate::eval::docs_accepted(
                    (#[trigger] bound@[k]).plan(),
                    crate::eval::below(total_blocks(bases@)),
                ),
            forall|k: int|
                0 <= k < i ==> plan_selection(
                    bound@[k].plan(),
                    blocks@,
                    strategy,
                    expansion_of(bases, tables, plans@[k].extent),
                ) == Ok::<Option<Set<u32>>, IndexError>((#[trigger] selections@[k]).ids()) && (
                selections@[k] matches Selection::Ids(ids) ==> crate::ids::ascending(ids@)),
        decreases bound.len() - i,
    {
        let outcome = match strategy {
            Strategy::Trigram => {
                let expansion = BlockExpansion { bases, tables, extent: plans[i].extent };
                proof {
                    assert(!zero_span(plans@[i as int].extent));
                    let accepts = |id: u32| expansion.accepts(id);
                    assert(crate::eval::docs_accepted(
                        bound@[i as int].plan(),
                        crate::eval::below(total_blocks(bases@)),
                    ));
                    crate::eval::lemma_docs_accepted_mono(
                        bound@[i as int].plan(),
                        crate::eval::below(total_blocks(bases@)),
                        accepts,
                    );
                }
                eval(&bound[i], blocks, &expansion)
            },
            Strategy::Sparse => {
                let whole = NoExpansion;
                proof {
                    lemma_docs_accepted_all(bound@[i as int].plan(), |id: u32| whole.accepts(id));
                }
                eval(&bound[i], blocks, &whole)
            },
        };
        match outcome {
            Ok(selection) => selections.push(selection),
            Err(e) => {
                assert forall|j: int| 0 <= j < i implies plan_selection(
                    (#[trigger] bound@[j]).plan(),
                    blocks@,
                    strategy,
                    expansion_of(bases, tables, plans@[j].extent),
                ) is Ok by {
                    assert(plan_selection(
                        bound@[j].plan(),
                        blocks@,
                        strategy,
                        expansion_of(bases, tables, plans@[j].extent),
                    ) == Ok::<Option<Set<u32>>, IndexError>(selections@[j].ids()));
                }
                assert(bound@[i as int].plan() == bound@[i as int].plan());
                return Err(e);
            },
        }
        i = i + 1;
    }
    Ok(selections)
}

pub proof fn lemma_docs_accepted_all(plan: crate::eval::Plan, accepts: spec_fn(u32) -> bool)
    requires
        forall|id: u32| #[trigger] accepts(id),
    ensures
        crate::eval::docs_accepted(plan, accepts),
    decreases plan,
{
    match plan {
        crate::eval::Plan::And(children) => {
            assert forall|i: int| 0 <= i < children.len() implies crate::eval::docs_accepted(
                #[trigger] children[i],
                accepts,
            ) by {
                lemma_docs_accepted_all(children[i], accepts);
            }
        },
        crate::eval::Plan::Or(children) => {
            assert forall|i: int| 0 <= i < children.len() implies crate::eval::docs_accepted(
                #[trigger] children[i],
                accepts,
            ) by {
                lemma_docs_accepted_all(children[i], accepts);
            }
        },
        crate::eval::Plan::Doc(id) => {
            assert(accepts(id));
        },
        _ => {},
    }
}

/// Grouped blocks are those that were given, and no others: a range covers block `local` of a document
/// if and only if the id of that block was given. All ranges have the extent that was asked for.
pub proof fn groups_hold_only_what_was_given(
    ids: Seq<u32>,
    bases: Seq<u32>,
    extent: SearchExtent,
    d: u32,
    l: u32,
)
    requires
        groupable(bases),
        forall|k: int| 0 <= k < ids.len() ==> ids[k] < total_blocks(bases),
    ensures
        groups_cover(grouped(ids, bases, extent), d, l) <==> exists|k: int|
            0 <= k < ids.len() && d + 1 < bases.len() && bases[d as int] <= #[trigger] ids[k]
                < bases[d + 1] && ids[k] == bases[d as int] + l,
        forall|g: int, r: int|
            0 <= g < grouped(ids, bases, extent).len() && 0 <= r < (#[trigger] grouped(
                ids,
                bases,
                extent,
            )[g]).1.len() ==> (#[trigger] grouped(ids, bases, extent)[g].1[r]).extent == extent,
    decreases ids.len(),
{
    if ids.len() > 0 {
        let front = ids.drop_last();
        let last = ids.last();
        assert(ids[ids.len() - 1] == last);
        groups_hold_only_what_was_given(front, bases, extent, d, l);
        lemma_grouped_shape(front, bases, extent);
        lemma_document_of(bases, last);
        let ld = document_of(bases, last);
        let groups = grouped(front, bases, extent);
        let local = (last - bases[ld]) as u32;
        lemma_add_block_covers(groups, ld as u32, local, extent, d, l);
        let out = grouped(ids, bases, extent);
        assert forall|g: int, r: int|
            0 <= g < out.len() && 0 <= r < (#[trigger] out[g]).1.len() implies (
        #[trigger] out[g].1[r]).extent == extent by {
            if g < groups.len() && !(g == groups.len() - 1 && groups.last().0 == ld as u32) {
                assert(out[g] == groups[g]);
                assert(groups[g].1[r].extent == extent);
            } else if g < groups.len() {
                let ranges = groups[g].1;
                if r < ranges.len() {
                    assert(groups[g].1[r].extent == extent);
                }
            }
        }
        if groups_cover(groups, d, l) {
            let k = choose|k: int|
                0 <= k < front.len() && d + 1 < bases.len() && bases[d as int] <= #[trigger] front[k]
                    < bases[d + 1] && front[k] == bases[d as int] + l;
            assert(ids[k] == front[k]);
        }
        if exists|k: int|
            0 <= k < ids.len() && d + 1 < bases.len() && bases[d as int] <= #[trigger] ids[k]
                < bases[d + 1] && ids[k] == bases[d as int] + l {
            let k = choose|k: int|
                0 <= k < ids.len() && d + 1 < bases.len() && bases[d as int] <= #[trigger] ids[k]
                    < bases[d + 1] && ids[k] == bases[d as int] + l;
            if k < front.len() {
                assert(front[k] == ids[k]);
            } else {
                lemma_block_document_unique(bases, d as int, ld, last);
            }
        }
        if d == ld as u32 && l == local {
            assert(bases[d as int] <= ids[ids.len() - 1] < bases[d + 1]);
        }
    }
}

/// A range lies within another.
pub open spec fn lies_in(range: CandidateRange, whole: CandidateRange) -> bool {
    whole.start <= range.start && range.end <= whole.end
}

/// A range begins where one of the given ranges begins and ends where one of them ends, and one of
/// those within it asks for its extent.
pub open spec fn made_of(ranges: Seq<CandidateRange>, whole: CandidateRange) -> bool {
    &&& exists|k: int| 0 <= k < ranges.len() && (#[trigger] ranges[k]).start == whole.start
    &&& exists|k: int| 0 <= k < ranges.len() && (#[trigger] ranges[k]).end == whole.end
    &&& exists|k: int|
        0 <= k < ranges.len() && lies_in(#[trigger] ranges[k], whole) && ranges[k].extent
            == whole.extent
}

/// The ranges ascend without overlap.
pub open spec fn ranges_separate(ranges: Seq<CandidateRange>) -> bool {
    forall|a: int, b: int|
        0 <= a < b < ranges.len() ==> (#[trigger] ranges[a]).end <= (#[trigger] ranges[b]).start
}

proof fn lemma_made_of_more(
    ranges: Seq<CandidateRange>,
    more: Seq<CandidateRange>,
    whole: CandidateRange,
)
    requires
        made_of(ranges, whole),
        forall|k: int| 0 <= k < ranges.len() ==> more.contains(#[trigger] ranges[k]),
    ensures
        made_of(more, whole),
{
    let a = choose|k: int| 0 <= k < ranges.len() && (#[trigger] ranges[k]).start == whole.start;
    let b = choose|k: int| 0 <= k < ranges.len() && (#[trigger] ranges[k]).end == whole.end;
    let c = choose|k: int|
        0 <= k < ranges.len() && lies_in(#[trigger] ranges[k], whole) && ranges[k].extent
            == whole.extent;
    assert(more.contains(ranges[a]) && more.contains(ranges[b]) && more.contains(ranges[c]));
}

proof fn lemma_merge_sorted_made(ranges: Seq<CandidateRange>)
    requires
        starts_ordered(ranges),
        forall|k: int| 0 <= k < ranges.len() ==> (#[trigger] ranges[k]).start < ranges[k].end,
    ensures
        ranges_separate(merge_sorted(ranges)),
        forall|a: int|
            0 <= a < merge_sorted(ranges).len() ==> made_of(
                ranges,
                #[trigger] merge_sorted(ranges)[a],
            ) && merge_sorted(ranges)[a].start < merge_sorted(ranges)[a].end,
        ranges.len() > 0 ==> merge_sorted(ranges).len() > 0 && merge_sorted(ranges).last().start
            <= ranges.last().start,
    decreases ranges.len(),
{
    if ranges.len() > 0 {
        let front = ranges.drop_last();
        let n = ranges.len() - 1;
        let range = ranges[n];
        assert forall|k: int| 0 <= k < front.len() implies (#[trigger] front[k]).start
            < front[k].end && ranges.contains(front[k]) by {
            assert(front[k] == ranges[k]);
        }
        lemma_merge_sorted_made(front);
        let merged = merge_sorted(front);
        let out = merge_sorted(ranges);
        if front.len() > 0 {
            assert(ranges[n - 1].start <= ranges[n].start);
        }
        assert(out == merge_step(merged, range));
        let joins = merged.len() > 0 && absorbs(merged.last(), range);
        assert forall|a: int| 0 <= a < out.len() implies made_of(ranges, #[trigger] out[a])
            && out[a].start < out[a].end by {
            if a < merged.len() {
                assert(made_of(front, merged[a]));
                lemma_made_of_more(front, ranges, merged[a]);
            }
            if joins && a == out.len() - 1 {
                let last = merged[a];
                let whole = absorbed(last, range);
                assert(out[a] == whole);
                assert(lies_in(ranges[n], whole));
                let b = choose|k: int| 0 <= k < ranges.len() && (#[trigger] ranges[k]).start == last.start;
                assert(ranges[b].start == whole.start);
                let e = choose|k: int| 0 <= k < ranges.len() && (#[trigger] ranges[k]).end == last.end;
                assert(ranges[e].end == whole.end || ranges[n].end == whole.end);
                let c = choose|k: int|
                    0 <= k < ranges.len() && lies_in(#[trigger] ranges[k], last)
                        && ranges[k].extent == last.extent;
                assert(lies_in(ranges[c], whole));
                assert(ranges[c].extent == whole.extent || ranges[n].extent == whole.extent);
            } else if !joins && a == out.len() - 1 {
                assert(out[a] == range);
                assert(lies_in(ranges[n], range));
                assert(ranges[n].start == range.start && ranges[n].end == range.end);
            }
        }
        assert forall|a: int, b: int| 0 <= a < b < out.len() implies (#[trigger] out[a]).end <= (
        #[trigger] out[b]).start by {
            if b < merged.len() {
                assert(merged[a].end <= merged[b].start);
            } else if a < merged.len() - 1 {
                assert(merged[a].end <= merged[merged.len() - 1].start);
                assert(merged[merged.len() - 1].start < merged[merged.len() - 1].end);
            }
        }
    }
}

/// Merged ranges ascend without overlap, and each is made of given ones: it begins and ends where a
/// given range does, and has the extent of a given range within it.
pub proof fn merged_ranges_are_made_of_given_ones(
    current: Seq<CandidateRange>,
    incoming: Seq<CandidateRange>,
    a: int,
)
    requires
        forall|k: int| 0 <= k < current.len() ==> (#[trigger] current[k]).start < current[k].end,
        forall|k: int| 0 <= k < incoming.len() ==> (#[trigger] incoming[k]).start < incoming[k].end,
    ensures
        ranges_separate(merged_ranges(current, incoming)),
        0 <= a < merged_ranges(current, incoming).len() ==> made_of(
            current + incoming,
            merged_ranges(current, incoming)[a],
        ),
{
    let both = current + incoming;
    let sorted = crate::sorting::sort_items(both);
    crate::sorting::sorting_orders_and_keeps(both);
    assert(starts_ordered(sorted)) by {
        assert forall|i: int, j: int| 0 <= i <= j < sorted.len() implies sorted[i].start
            <= sorted[j].start by {
            if i < j {
                assert(!crate::sorting::key_less(sorted[j].key(), sorted[i].key()));
            }
        }
    }
    assert forall|k: int| 0 <= k < sorted.len() implies (#[trigger] sorted[k]).start < sorted[k].end
        && both.contains(sorted[k]) by {
        assert(sorted.contains(sorted[k]));
        let m = choose|m: int| 0 <= m < both.len() && both[m] == sorted[k];
        if m < current.len() {
            assert(both[m] == current[m]);
        } else {
            assert(both[m] == incoming[m - current.len()]);
        }
    }
    lemma_merge_sorted_made(sorted);
    if 0 <= a < merge_sorted(sorted).len() {
        lemma_made_of_more(sorted, both, merge_sorted(sorted)[a]);
    }
}

proof fn lemma_with_groups_exact(
    documents: Map<u32, Option<Seq<CandidateRange>>>,
    groups: Seq<(u32, Seq<CandidateRange>)>,
    d: u32,
    l: u32,
)
    ensures
        is_candidate(with_groups(documents, groups), d, l) ==> is_candidate(documents, d, l)
            || groups_cover(groups, d, l),
        with_groups(documents, groups).contains_key(d) && with_groups(documents, groups)[d] is None
            <==> documents.contains_key(d) && documents[d] is None,
    decreases groups.len(),
{
    if groups.len() > 0 {
        let front = groups.drop_last();
        lemma_with_groups_exact(documents, front, d, l);
        let before = with_groups(documents, front);
        let (document, ranges) = groups.last();
        if d == document {
            if before.contains_key(document) {
                if let Some(current) = before[document] {
                    merging_keeps_blocks(current, ranges, l, SearchExtent::Document);
                }
            } else {
                merging_keeps_blocks(Seq::empty(), ranges, l, SearchExtent::Document);
                assert(!ranges_cover(Seq::<CandidateRange>::empty(), l));
            }
            if ranges_cover(ranges, l) {
                assert(groups[groups.len() - 1].0 == d);
            }
        }
        if groups_cover(front, d, l) {
            let g = choose|g: int|
                0 <= g < front.len() && (#[trigger] front[g]).0 == d && ranges_cover(front[g].1, l);
            assert(groups[g] == front[g]);
        }
    }
}

/// What a selection adds: all documents, the documents with a selected id, or the selected blocks of
/// documents.
pub open spec fn adds(
    selection: Selection,
    extent: SearchExtent,
    strategy: Strategy,
    document_count: u32,
    bases: Seq<u32>,
    d: u32,
    l: u32,
) -> bool {
    match selection {
        Selection::All => d < document_count,
        Selection::Ids(ids) => match strategy {
            Strategy::Sparse => exists|k: int| 0 <= k < ids@.len() && #[trigger] ids@[k] == d,
            Strategy::Trigram => exists|k: int|
                0 <= k < ids@.len() && d + 1 < bases.len() && bases[d as int] <= #[trigger] ids@[k]
                    < bases[d + 1] && (extent is Document || ids@[k] == bases[d as int] + l),
        },
    }
}

/// Candidates are what was one before and what was selected, and nothing else: a search reads no
/// document, and no block of a document, that no selection holds.
pub proof fn candidates_are_what_was_selected(
    documents: Map<u32, Option<Seq<CandidateRange>>>,
    selection: Selection,
    extent: SearchExtent,
    strategy: Strategy,
    document_count: u32,
    bases: Seq<u32>,
    d: u32,
    l: u32,
)
    requires
        groupable(bases),
        selection_fits(selection, strategy, document_count, Some(bases)),
    ensures
        is_candidate(
            with_selection(documents, selection, extent, strategy, document_count, Some(bases)),
            d,
            l,
        ) <==> is_candidate(documents, d, l) || adds(
            selection,
            extent,
            strategy,
            document_count,
            bases,
            d,
            l,
        ),
{
    let after = with_selection(
        documents,
        selection,
        extent,
        strategy,
        document_count,
        Some(bases),
    );
    if let Selection::Ids(ids) = selection {
        if strategy == Strategy::Sparse {
            if ids@.contains(d) {
                let k = choose|k: int| 0 <= k < ids@.len() && ids@[k] == d;
                assert(ids@[k] == d);
            }
            assert(crate::ids::id_set(ids@).contains(d) <==> ids@.contains(d));
        } else if extent == SearchExtent::Document {
            assert forall|k: int| 0 <= k < ids@.len() implies (d == document_of(
                bases,
                #[trigger] ids@[k],
            ) <==> d + 1 < bases.len() && bases[d as int] <= ids@[k] < bases[d + 1]) by {
                lemma_document_of(bases, ids@[k]);
                if d + 1 < bases.len() && bases[d as int] <= ids@[k] < bases[d + 1] {
                    lemma_block_document_unique(
                        bases,
                        d as int,
                        document_of(bases, ids@[k]),
                        ids@[k],
                    );
                }
            }
        } else {
            groups_hold_only_what_was_given(ids@, bases, extent, d, l);
            lemma_with_groups_exact(documents, grouped(ids@, bases, extent), d, l);
            lemma_with_groups_candidates(documents, grouped(ids@, bases, extent), d, l);
        }
    }
}

} // verus!
