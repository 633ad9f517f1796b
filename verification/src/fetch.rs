//! Fetching documents and regions of documents: which blocks to load for a batch of requests,
//! and what the loaded blocks hold for each request.

use crate::error::IndexError;
use crate::format::PackBlock;
use crate::lines::{extend_line_range, locate_line, read_range};
use crate::pack::{
    collect_request_blocks, document_blocks, ByteRange, DocumentBlock, LARGE_DOCUMENT_BYTES,
};
use crate::regions::{
    merge_planned_ranges, plan_pack_ranges, PackRegionRequest, PlannedRange, PlannedRead,
};
use std::collections::{BTreeMap, BTreeSet};
use vstd::prelude::*;

verus! {

/// Which matcher a region is for.
#[derive(Debug, Clone, Copy, PartialEq, Eq, Structural)]
pub enum RegionProgram {
    Regional,
    Full,
}

/// Consecutive bytes of a document from byte `start` on, which lies in line number `line`, whose
/// first byte is `line_offset`.
#[derive(Debug)]
pub struct DocumentRegion {
    pub start: u64,
    pub line: u64,
    pub line_offset: u64,
    pub bytes: Vec<u8>,
    pub program: RegionProgram,
}

#[derive(Debug)]
pub enum FetchedDocument {
    Whole(Vec<u8>),
    Regions { decoded_size: u64, regions: Vec<DocumentRegion> },
}

/// What is done for a request once its blocks are loaded.
#[derive(Debug)]
pub enum PlannedRequest {
    Whole(Vec<DocumentBlock>),
    Regions { parts: Vec<DocumentBlock>, ranges: Vec<PlannedRange> },
}

/// The parts of a document make it up whole.
pub proof fn lemma_document_whole(
    slice: crate::pack::PackSlice,
    size: u64,
    blocks: Seq<PackBlock>,
)
    requires
        blocks.len() <= usize::MAX,
        crate::pack::document_span(slice, size, blocks) is Ok,
    ensures
        crate::lines::whole_parts(crate::pack::document_parts(slice, size, blocks)),
        crate::lines::parts_size(crate::pack::document_parts(slice, size, blocks)) == size,
{
    let parts = crate::pack::document_parts(slice, size, blocks);
    crate::pack::document_parts_tile(slice, size, blocks);
    if parts.len() > 0 {
        assert(crate::pack::part_joins(parts, size as int, parts.len() - 1));
    }
}

/// A planned range as it is read: full-line ranges are widened to their lines.
pub open spec fn exact_range(
    bytes: Seq<u8>,
    newlines: Seq<u32>,
    range: PlannedRange,
) -> PlannedRange {
    match range.read {
        PlannedRead::Regional => range,
        PlannedRead::FullLines { before_context, after_context } => {
            let (start, end) = crate::lines::line_range(
                bytes,
                newlines,
                range.bytes,
                before_context as int,
                after_context as int,
            );
            PlannedRange {
                bytes: ByteRange { start: start as u64, end: end as u64 },
                read: range.read,
            }
        },
    }
}

pub open spec fn exact_ranges(
    bytes: Seq<u8>,
    newlines: Seq<u32>,
    ranges: Seq<PlannedRange>,
) -> Seq<PlannedRange> {
    ranges.map_values(|range: PlannedRange| exact_range(bytes, newlines, range))
}

/// The region that is read for a range.
pub open spec fn region_of(
    region: DocumentRegion,
    bytes: Seq<u8>,
    newlines: Seq<u32>,
    range: PlannedRange,
) -> bool {
    &&& region.start == range.bytes.start
    &&& region.line == crate::lines::line_number(bytes, newlines, range.bytes.start as int)
    &&& region.line_offset == crate::lines::back(bytes, newlines, range.bytes.start as int, 1)
    &&& region.bytes@ == bytes.subrange(range.bytes.start as int, range.bytes.end as int)
    &&& region.program == if range.read is Regional {
        RegionProgram::Regional
    } else {
        RegionProgram::Full
    }
}

/// The regions of a document, one for each range, in order.
pub open spec fn regions_of(
    regions: Seq<DocumentRegion>,
    bytes: Seq<u8>,
    newlines: Seq<u32>,
    ranges: Seq<PlannedRange>,
) -> bool {
    let exact = crate::regions::merged_plan(exact_ranges(bytes, newlines, ranges), 0);
    &&& regions.len() == exact.len()
    &&& forall|i: int|
        0 <= i < regions.len() ==> region_of(#[trigger] regions[i], bytes, newlines, exact[i])
}

/// Why regions cannot be read: one of the ranges cannot be widened to its lines, or the start of a
/// widened range cannot be located in its line, or a block of the range is not at hand. Blocks of
/// the document that no range touches play no part.
pub open spec fn region_failure(
    parts: Seq<DocumentBlock>,
    decoded: Map<usize, Vec<u8>>,
    newlines: Seq<u32>,
    ranges: Seq<PlannedRange>,
    error: IndexError,
) -> bool {
    let bytes = crate::lines::content(parts, decoded);
    let exact = crate::regions::merged_plan(exact_ranges(bytes, newlines, ranges), 0);
    ||| exists|i: int|
        0 <= i < ranges.len() && range_widening_failure(
            parts,
            decoded,
            newlines,
            #[trigger] ranges[i],
            error,
        )
    ||| exists|k: int|
        0 <= k < exact.len() && range_reading_failure(
            parts,
            decoded,
            newlines,
            #[trigger] exact[k],
            error,
        )
}

pub open spec fn range_widening_failure(
    parts: Seq<DocumentBlock>,
    decoded: Map<usize, Vec<u8>>,
    newlines: Seq<u32>,
    range: PlannedRange,
    error: IndexError,
) -> bool {
    match range.read {
        PlannedRead::Regional => false,
        PlannedRead::FullLines { before_context, after_context } => crate::lines::widening_failure(
            parts,
            decoded,
            newlines,
            range.bytes,
            before_context,
            after_context,
            error,
        ),
    }
}

pub open spec fn range_reading_failure(
    parts: Seq<DocumentBlock>,
    decoded: Map<usize, Vec<u8>>,
    newlines: Seq<u32>,
    range: PlannedRange,
    error: IndexError,
) -> bool {
    ||| crate::lines::locating_failure(parts, decoded, newlines, range.bytes.start, error)
    ||| crate::lines::not_ready(
        parts,
        decoded,
        range.bytes.start as int,
        range.bytes.end as int,
        error,
    )
}

/// Read the regions of a document.
#[verifier::rlimit(30)]
pub fn assemble_regions(
    block_newlines: &[u32],
    decoded_size: u64,
    parts: &[DocumentBlock],
    ranges: &[PlannedRange],
    decoded: &BTreeMap<usize, Vec<u8>>,
) -> (regions: Result<Vec<DocumentRegion>, IndexError>)
    requires
        crate::lines::whole_parts(parts@),
        decoded_size == crate::lines::parts_size(parts@),
        crate::regions::plan_within(ranges@, decoded_size),
    ensures
        match regions {
            Ok(list) => regions_of(
                list@,
                crate::lines::content(parts@, decoded@),
                block_newlines@,
                ranges@,
            ),
            Err(e) => region_failure(parts@, decoded@, block_newlines@, ranges@, e),
        },
{
    let ghost bytes = crate::lines::content(parts@, decoded@);
    let ghost newlines = block_newlines@;
    let mut exact: Vec<PlannedRange> = Vec::new();
    let mut i: usize = 0;
    while i < ranges.len()
        invariant
            i <= ranges.len(),
            crate::lines::whole_parts(parts@),
            decoded_size == crate::lines::parts_size(parts@),
            crate::regions::plan_within(ranges@, decoded_size),
            bytes == crate::lines::content(parts@, decoded@),
            newlines == block_newlines@,
            exact@ == exact_ranges(bytes, newlines, ranges@.take(i as int)),
            crate::regions::plan_within(exact@, decoded_size),
        decreases ranges.len() - i,
    {
        let range: PlannedRange = ranges[i];
        let ghost before = exact@;
        assert(ranges@[i as int].bytes.start < ranges@[i as int].bytes.end);
        let next: PlannedRange = match range.read {
            PlannedRead::Regional => range,
            PlannedRead::FullLines { before_context, after_context } => {
                match extend_line_range(
                    parts,
                    decoded,
                    block_newlines,
                    decoded_size,
                    range.bytes,
                    before_context,
                    after_context,
                ) {
                    Ok(lines) => {
                        proof {
                            crate::lines::lemma_back_bound(
                                bytes,
                                newlines,
                                range.bytes.start as int,
                                before_context + 1,
                            );
                            let n = after_context + if range.bytes.end > 0 && bytes[range.bytes.end
                                - 1] == 10 {
                                0int
                            } else {
                                1int
                            };
                            crate::lines::lemma_ahead_bound(
                                bytes,
                                newlines,
                                range.bytes.end as int,
                                n,
                            );
                        }
                        PlannedRange { bytes: lines, read: range.read }
                    },
                    Err(e) => {
                        assert(ranges@[i as int] == range);
                        return Err(e);
                    },
                }
            },
        };
        exact.push(next);
        assert(exact@ =~= exact_ranges(bytes, newlines, ranges@.take(i + 1)));
        assert forall|k: int| 0 <= k < exact@.len() implies (#[trigger] exact@[k]).bytes.start
            < exact@[k].bytes.end && exact@[k].bytes.end <= decoded_size by {
            if k < before.len() {
                assert(before[k].bytes.start < before[k].bytes.end);
            }
        }
        i = i + 1;
    }
    assert(ranges@.take(i as int) =~= ranges@);
    let ghost widened = exact@;
    let exact = merge_planned_ranges(exact, 0);
    proof {
        crate::regions::lemma_merged_within(widened, 0, decoded_size);
    }
    let mut regions: Vec<DocumentRegion> = Vec::new();
    let mut k: usize = 0;
    while k < exact.len()
        invariant
            k <= exact.len(),
            crate::lines::whole_parts(parts@),
            decoded_size == crate::lines::parts_size(parts@),
            crate::regions::plan_within(exact@, decoded_size),
            bytes == crate::lines::content(parts@, decoded@),
            newlines == block_newlines@,
            exact@ == crate::regions::merged_plan(exact_ranges(bytes, newlines, ranges@), 0),
            regions@.len() == k,
            forall|j: int|
                0 <= j < k ==> region_of(#[trigger] regions@[j], bytes, newlines, exact@[j]),
        decreases exact.len() - k,
    {
        let range: PlannedRange = exact[k];
        assert(exact@[k as int].bytes.start < exact@[k as int].bytes.end);
        let (line, line_offset) = match locate_line(
            parts,
            decoded,
            block_newlines,
            range.bytes.start,
        ) {
            Ok(line) => line,
            Err(e) => {
                assert(exact@[k as int] == range);
                return Err(e);
            },
        };
        let program: RegionProgram = match range.read {
            PlannedRead::Regional => RegionProgram::Regional,
            PlannedRead::FullLines { .. } => RegionProgram::Full,
        };
        let read = match read_range(parts, decoded, range.bytes) {
            Ok(read) => read,
            Err(e) => {
                assert(exact@[k as int] == range);
                return Err(e);
            },
        };
        regions.push(
            DocumentRegion { start: range.bytes.start, line, line_offset, bytes: read, program },
        );
        k = k + 1;
    }
    Ok(regions)
}

/// The byte ranges of a request that are loaded before it is answered. A large document that is
/// read whole is streamed instead.
pub open spec fn loaded_ranges(request: PackRegionRequest) -> Seq<ByteRange> {
    match crate::regions::region_plan(request.ranges@, request.decoded_size) {
        Ok(Some(ranges)) => ranges.map_values(|range: PlannedRange| range.bytes),
        _ => if 0 < request.decoded_size < LARGE_DOCUMENT_BYTES {
            seq![ByteRange { start: 0, end: request.decoded_size }]
        } else {
            Seq::empty()
        },
    }
}

/// Why a request is refused.
pub open spec fn request_error(request: PackRegionRequest, blocks: Seq<PackBlock>) -> Option<
    IndexError,
> {
    match crate::pack::document_span(request.slice, request.decoded_size, blocks) {
        Err(e) => Some(e),
        Ok(_) => match crate::regions::region_plan(request.ranges@, request.decoded_size) {
            Err(e) => Some(e),
            Ok(_) => None,
        },
    }
}

/// The first refusal among the requests.
pub open spec fn requests_error(
    requests: Seq<PackRegionRequest>,
    blocks: Seq<PackBlock>,
) -> Option<IndexError>
    decreases requests.len(),
{
    if requests.len() == 0 {
        None
    } else {
        match requests_error(requests.drop_last(), blocks) {
            Some(e) => Some(e),
            None => request_error(requests.last(), blocks),
        }
    }
}

/// The plan belongs to the request.
pub open spec fn plan_of(
    plan: PlannedRequest,
    request: PackRegionRequest,
    blocks: Seq<PackBlock>,
) -> bool {
    let expected = crate::pack::document_parts(request.slice, request.decoded_size, blocks);
    match plan {
        PlannedRequest::Whole(parts) => parts@ == expected && crate::regions::region_plan(
            request.ranges@,
            request.decoded_size,
        ) == Ok::<Option<Seq<PlannedRange>>, IndexError>(None),
        PlannedRequest::Regions { parts, ranges } => parts@ == expected && crate::regions::region_plan(
            request.ranges@,
            request.decoded_size,
        ) == Ok::<Option<Seq<PlannedRange>>, IndexError>(Some(ranges@)),
    }
}

/// Blocks that the first `n` requests need.
pub open spec fn needed_blocks(
    requests: Seq<PackRegionRequest>,
    blocks: Seq<PackBlock>,
) -> Set<usize>
    decreases requests.len(),
{
    if requests.len() == 0 {
        Set::empty()
    } else {
        let last = requests.last();
        needed_blocks(requests.drop_last(), blocks).union(
            crate::pack::touched_blocks(
                crate::pack::document_parts(last.slice, last.decoded_size, blocks),
                loaded_ranges(last),
            ),
        )
    }
}

proof fn lemma_requests_error(
    requests: Seq<PackRegionRequest>,
    blocks: Seq<PackBlock>,
    n: int,
    error: IndexError,
)
    requires
        0 <= n <= requests.len(),
        requests_error(requests.take(n), blocks) == Some(error),
    ensures
        requests_error(requests, blocks) == Some(error),
    decreases requests.len() - n,
{
    if n < requests.len() {
        assert(requests.take(n + 1).drop_last() =~= requests.take(n));
        lemma_requests_error(requests, blocks, n + 1, error);
    } else {
        assert(requests.take(n) =~= requests);
    }
}

/// Plan a batch of region requests, and collect the blocks to load for it.
pub fn plan_regions(
    requests: &[PackRegionRequest<'_>],
    blocks: &[PackBlock],
) -> (plan: Result<(Vec<PlannedRequest>, BTreeSet<usize>), IndexError>)
    ensures
        match plan {
            Ok((plans, ids)) => {
                &&& requests_error(requests@, blocks@) is None
                &&& plans@.len() == requests@.len()
                &&& forall|i: int|
                    0 <= i < plans@.len() ==> plan_of(#[trigger] plans@[i], requests@[i], blocks@)
                &&& ids@ == needed_blocks(requests@, blocks@)
            },
            Err(e) => requests_error(requests@, blocks@) == Some(e),
        },
{
    broadcast use vstd::std_specs::btree::group_btree_axioms;

    let mut ids: BTreeSet<usize> = BTreeSet::new();
    let mut plans: Vec<PlannedRequest> = Vec::new();
    let mut i: usize = 0;
    assert(ids@ =~= needed_blocks(requests@.take(0), blocks@));
    while i < requests.len()
        invariant
            i <= requests.len(),
            plans@.len() == i,
            requests_error(requests@.take(i as int), blocks@) is None,
            ids@ == needed_blocks(requests@.take(i as int), blocks@),
            forall|j: int|
                0 <= j < i ==> plan_of(#[trigger] plans@[j], requests@[j], blocks@),
        decreases requests.len() - i,
    {
        let request = &requests[i];
        proof {
            assert(requests@.take(i + 1).drop_last() =~= requests@.take(i as int));
            assert(requests@.take(i + 1).last() == requests@[i as int]);
        }
        let parts = match document_blocks(request.slice, request.decoded_size, blocks) {
            Ok(parts) => parts,
            Err(e) => {
                proof {
                    lemma_requests_error(requests@, blocks@, i + 1, e);
                }
                return Err(e);
            },
        };
        let mut loaded: Vec<ByteRange> = Vec::new();
        match plan_pack_ranges(request) {
            Err(e) => {
                proof {
                    lemma_requests_error(requests@, blocks@, i + 1, e);
                }
                return Err(e);
            },
            Ok(None) => {
                if request.decoded_size < LARGE_DOCUMENT_BYTES && request.decoded_size > 0 {
                    loaded.push(ByteRange { start: 0, end: request.decoded_size });
                }
                assert(loaded@ =~= loaded_ranges(*request));
                plans.push(PlannedRequest::Whole(parts));
            },
            Ok(Some(ranges)) => {
                let mut k: usize = 0;
                while k < ranges.len()
                    invariant
                        k <= ranges.len(),
                        loaded@ == ranges@.take(k as int).map_values(
                            |range: PlannedRange| range.bytes,
                        ),
                    decreases ranges.len() - k,
                {
                    loaded.push(ranges[k].bytes);
                    assert(loaded@ =~= ranges@.take(k + 1).map_values(
                        |range: PlannedRange| range.bytes,
                    ));
                    k = k + 1;
                }
                assert(ranges@.take(k as int) =~= ranges@);
                assert(loaded@ =~= loaded_ranges(*request));
                plans.push(PlannedRequest::Regions { parts, ranges });
            },
        }
        match collect_request_blocks(
            request.slice,
            request.decoded_size,
            loaded.as_slice(),
            blocks,
            &mut ids,
        ) {
            Ok(_) => {},
            Err(e) => {
                proof {
                    lemma_requests_error(requests@, blocks@, i + 1, e);
                }
                return Err(e);
            },
        }
        assert(ids@ == needed_blocks(requests@.take(i + 1), blocks@));
        i = i + 1;
    }
    assert(requests@.take(i as int) =~= requests@);
    Ok((plans, ids))
}

/// Answer a planned request from the decoded blocks.
pub fn finish_request(
    request: &PackRegionRequest<'_>,
    plan: &PlannedRequest,
    blocks: &[PackBlock],
    decoded: &BTreeMap<usize, Vec<u8>>,
) -> (document: Result<FetchedDocument, IndexError>)
    requires
        request_error(*request, blocks@) is None,
        plan_of(*plan, *request, blocks@),
    ensures
        ({
            let parts = crate::pack::document_parts(request.slice, request.decoded_size, blocks@);
            let bytes = crate::lines::content(parts, decoded@);
            match document {
                Ok(FetchedDocument::Whole(body)) => plan is Whole && body@ == bytes,
                Ok(FetchedDocument::Regions { decoded_size, regions }) => plan is Regions
                    && decoded_size == request.decoded_size && regions_of(
                    regions@,
                    bytes,
                    request.block_newlines@,
                    plan->ranges@,
                ),
                Err(e) => match *plan {
                    PlannedRequest::Whole(_) => crate::lines::not_ready(
                        parts,
                        decoded@,
                        0,
                        request.decoded_size as int,
                        e,
                    ),
                    PlannedRequest::Regions { ranges, .. } => region_failure(
                        parts,
                        decoded@,
                        request.block_newlines@,
                        ranges@,
                        e,
                    ),
                },
            }
        }),
{
    proof {
        assert(blocks.len() == blocks@.len());
        lemma_document_whole(request.slice, request.decoded_size, blocks@);
    }
    match plan {
        PlannedRequest::Whole(parts) => {
            match read_range(
                parts.as_slice(),
                decoded,
                ByteRange { start: 0, end: request.decoded_size },
            ) {
                Ok(body) => {
                    assert(body@ =~= crate::lines::content(parts@, decoded@));
                    Ok(FetchedDocument::Whole(body))
                },
                Err(e) => Err(e),
            }
        },
        PlannedRequest::Regions { parts, ranges } => {
            proof {
                crate::regions::lemma_region_plan_within(request.ranges@, request.decoded_size);
            }
            match assemble_regions(
                request.block_newlines,
                request.decoded_size,
                parts.as_slice(),
                ranges.as_slice(),
                decoded,
            ) {
                Ok(regions) => Ok(
                    FetchedDocument::Regions { decoded_size: request.decoded_size, regions },
                ),
                Err(e) => Err(e),
            }
        },
    }
}

/// A region lies in its document: it holds the document's bytes from its start on, and says on which
/// line that start is and where the line begins.
pub open spec fn lies_true(region: DocumentRegion, bytes: Seq<u8>) -> bool {
    let start = region.start as int;
    &&& start + region.bytes@.len() <= bytes.len()
    &&& region.bytes@ == bytes.subrange(start, start + region.bytes@.len())
    &&& region.line == 1 + crate::lines::line_ends(bytes, 0, start)
    &&& region.line_offset <= region.start
    &&& region.line_offset == 0 || bytes[region.line_offset - 1] == 10
    &&& crate::lines::line_ends(bytes, region.line_offset as int, start) == 0
}

/// A region holds the stretch of its document from `start` up to `end`.
pub open spec fn holds_stretch(region: DocumentRegion, start: int, end: int) -> bool {
    region.start <= start && end <= region.start + region.bytes@.len()
}

/// A region holds a range with the lines of context asked for.
pub open spec fn holds_context(
    region: DocumentRegion,
    bytes: Seq<u8>,
    range: ByteRange,
    before: int,
    after: int,
) -> bool {
    exists|start: int, end: int|
        #![trigger holds_stretch(region, start, end)]
        crate::lines::context_held(bytes, range, before, after, start, end) && holds_stretch(
            region,
            start,
            end,
        )
}

/// A region answers a read: it holds the bytes of a regional one, and of a full-line one the whole
/// lines with their context, for the full matcher.
pub open spec fn answers(region: DocumentRegion, bytes: Seq<u8>, range: PlannedRange) -> bool {
    match range.read {
        PlannedRead::Regional => holds_stretch(
            region,
            range.bytes.start as int,
            range.bytes.end as int,
        ),
        PlannedRead::FullLines { before_context, after_context } => region.program
            == RegionProgram::Full && holds_context(
            region,
            bytes,
            range.bytes,
            before_context as int,
            after_context as int,
        ),
    }
}

/// One of the regions answers the read.
pub open spec fn is_answered(
    regions: Seq<DocumentRegion>,
    bytes: Seq<u8>,
    range: PlannedRange,
) -> bool {
    exists|i: int| 0 <= i < regions.len() && answers(#[trigger] regions[i], bytes, range)
}

/// Byte `p` is between `start` and `end`.
pub open spec fn between(start: int, end: int, p: int) -> bool {
    start <= p < end
}

/// A read asks for byte `p`: it is in its bytes, or in the lines and context of a full-line one.
pub open spec fn asks_for(bytes: Seq<u8>, range: PlannedRange, p: int) -> bool {
    match range.read {
        PlannedRead::Regional => range.bytes.start <= p < range.bytes.end,
        PlannedRead::FullLines { before_context, after_context } => exists|start: int, end: int|
            #![trigger between(start, end, p)]
            between(start, end, p) && crate::lines::context_held(
                bytes,
                range.bytes,
                before_context as int,
                after_context as int,
                start,
                end,
            ),
    }
}

/// One of the reads asks for byte `p`.
pub open spec fn is_asked_for(bytes: Seq<u8>, ranges: Seq<PlannedRange>, p: int) -> bool {
    exists|k: int| 0 <= k < ranges.len() && asks_for(bytes, #[trigger] ranges[k], p)
}

/// With an accurate table the regions of a document answer every read: each range is there with its
/// whole lines and all lines of context, in a region that lies true in the document. The regions
/// ascend and do not touch, and hold no byte that no read asks for.
pub proof fn regions_answer_their_reads(
    regions: Seq<DocumentRegion>,
    bytes: Seq<u8>,
    newlines: Seq<u32>,
    ranges: Seq<PlannedRange>,
    k: int,
    i: int,
    j: int,
)
    requires
        crate::lines::table_accurate(bytes, newlines),
        bytes.len() <= u64::MAX,
        crate::regions::plan_within(ranges, bytes.len() as u64),
        regions_of(regions, bytes, newlines, ranges),
    ensures
        0 <= k < ranges.len() ==> is_answered(regions, bytes, ranges[k]),
        0 <= i < regions.len() ==> lies_true(regions[i], bytes),
        0 <= i < j < regions.len() ==> regions[i].start + regions[i].bytes@.len()
            < regions[j].start,
        0 <= i < regions.len() ==> forall|p: int|
            regions[i].start <= p < regions[i].start + regions[i].bytes@.len()
                ==> #[trigger] is_asked_for(bytes, ranges, p),
{
    let wide = exact_ranges(bytes, newlines, ranges);
    let exact = crate::regions::merged_plan(wide, 0);
    assert forall|m: int| 0 <= m < wide.len() implies (#[trigger] wide[m]).bytes.start
        < wide[m].bytes.end && wide[m].bytes.end <= bytes.len() && wide[m].bytes.start
        <= ranges[m].bytes.start && ranges[m].bytes.end <= wide[m].bytes.end && wide[m].read
        == ranges[m].read by {
        let range = ranges[m];
        assert(range.bytes.start < range.bytes.end && range.bytes.end <= bytes.len());
        if let PlannedRead::FullLines { before_context, after_context } = range.read {
            crate::lines::line_ranges_hold_the_context_asked_for(
                bytes,
                newlines,
                range.bytes,
                before_context as int,
                after_context as int,
            );
        }
    }
    crate::regions::lemma_merged_within(wide, 0, bytes.len() as u64);
    crate::regions::merged_ranges_lie_apart(wide, 0, k);
    crate::regions::merged_ranges_serve_their_reads(wide, 0, k, i);
    if 0 <= k < ranges.len() {
        let range = ranges[k];
        assert(crate::regions::is_served(exact, wide[k]));
        let a = choose|a: int|
            0 <= a < exact.len() && crate::regions::serves(#[trigger] exact[a], wide[k]);
        assert(region_of(regions[a], bytes, newlines, exact[a]));
        assert(exact[a].bytes.start < exact[a].bytes.end);
        if let PlannedRead::FullLines { before_context, after_context } = range.read {
            let (start, end) = crate::lines::line_range(
                bytes,
                newlines,
                range.bytes,
                before_context as int,
                after_context as int,
            );
            crate::lines::line_ranges_hold_the_context_asked_for(
                bytes,
                newlines,
                range.bytes,
                before_context as int,
                after_context as int,
            );
            assert(holds_stretch(regions[a], start, end));
        }
        assert(answers(regions[a], bytes, range));
    }
    if 0 <= i < regions.len() {
        assert(region_of(regions[i], bytes, newlines, exact[i]));
        assert(exact[i].bytes.start < exact[i].bytes.end);
        crate::lines::bytes_are_placed_on_their_lines(
            bytes,
            newlines,
            exact[i].bytes.start as int,
        );
        if i < j < regions.len() {
            assert(region_of(regions[j], bytes, newlines, exact[j]));
            assert(exact[i].bytes.end < exact[j].bytes.start);
        }
        assert forall|p: int|
            regions[i].start <= p < regions[i].start + regions[i].bytes@.len() implies #[trigger] is_asked_for(
            bytes,
            ranges,
            p,
        ) by {
            reveal(crate::regions::no_excess);
            assert(crate::regions::is_asked(wide, 0, p));
            let m = choose|m: int|
                0 <= m < wide.len() && (#[trigger] wide[m]).bytes.start <= p < wide[m].bytes.end + 0;
            let range = ranges[m];
            if let PlannedRead::FullLines { before_context, after_context } = range.read {
                let (start, end) = crate::lines::line_range(
                    bytes,
                    newlines,
                    range.bytes,
                    before_context as int,
                    after_context as int,
                );
                crate::lines::line_ranges_hold_the_context_asked_for(
                    bytes,
                    newlines,
                    range.bytes,
                    before_context as int,
                    after_context as int,
                );
                assert(between(start, end, p));
            }
            assert(asks_for(bytes, range, p));
        }
    }
}

/// The blocks that are loaded are those that hold a byte of what is read of a document: the planned
/// ranges of one read in part, all of a small one read whole, and none ahead of time of a large one.
pub proof fn loaded_blocks_are_those_read(
    requests: Seq<PackRegionRequest>,
    blocks: Seq<PackBlock>,
    id: usize,
)
    ensures
        needed_blocks(requests, blocks).contains(id) <==> exists|r: int|
            0 <= r < requests.len() && #[trigger] block_read(requests[r], blocks, id),
    decreases requests.len(),
{
    if requests.len() > 0 {
        let front = requests.drop_last();
        let n = requests.len() - 1;
        loaded_blocks_are_those_read(front, blocks, id);
        lemma_block_read(requests[n], blocks, id);
        if needed_blocks(front, blocks).contains(id) {
            let r = choose|r: int| 0 <= r < front.len() && #[trigger] block_read(front[r], blocks, id);
            assert(block_read(requests[r], blocks, id));
        }
        if exists|r: int| 0 <= r < requests.len() && #[trigger] block_read(requests[r], blocks, id) {
            let r = choose|r: int|
                0 <= r < requests.len() && #[trigger] block_read(requests[r], blocks, id);
            if r < n {
                assert(block_read(front[r], blocks, id));
            }
        }
    }
}

/// A stretch of the document is read for a request.
pub open spec fn is_read(request: PackRegionRequest, start: u64, end: u64) -> bool {
    match crate::regions::region_plan(request.ranges@, request.decoded_size) {
        Ok(Some(ranges)) => exists|k: int|
            0 <= k < ranges.len() && (#[trigger] ranges[k]).bytes.start == start
                && ranges[k].bytes.end == end,
        _ => request.decoded_size < 16777216 && start == 0 < end == request.decoded_size,
    }
}

/// A block holds a byte of what is read for a request.
pub open spec fn block_read(
    request: PackRegionRequest,
    blocks: Seq<PackBlock>,
    id: usize,
) -> bool {
    let parts = crate::pack::document_parts(request.slice, request.decoded_size, blocks);
    exists|p: int, start: u64, end: u64| #[trigger]
        is_read(request, start, end) && 0 <= p < parts.len() && (#[trigger] parts[p]).block_id == id
            && parts[p].start < end && start < parts[p].start + parts[p].len
}

proof fn lemma_block_read(request: PackRegionRequest, blocks: Seq<PackBlock>, id: usize)
    ensures
        crate::pack::touched_blocks(
            crate::pack::document_parts(request.slice, request.decoded_size, blocks),
            loaded_ranges(request),
        ).contains(id) <==> block_read(request, blocks, id),
{
    let parts = crate::pack::document_parts(request.slice, request.decoded_size, blocks);
    let loaded = loaded_ranges(request);
    let touched = crate::pack::touched_blocks(parts, loaded);
    if touched.contains(id) {
        let r = choose|r: int|
            0 <= r < loaded.len() && crate::pack::range_blocks(
                parts,
                #[trigger] loaded[r],
                parts.len() as int,
            ).contains(id);
        let p = choose|p: int|
            0 <= p < parts.len() && (#[trigger] parts[p]).block_id == id && crate::pack::part_overlaps(
                parts[p],
                loaded[r].start,
                loaded[r].end,
            );
        if let Ok(Some(ranges)) = crate::regions::region_plan(request.ranges@, request.decoded_size) {
            assert(ranges[r].bytes == loaded[r]);
        }
        assert(is_read(request, loaded[r].start, loaded[r].end));
        assert(parts[p].block_id == id);
    }
    if block_read(request, blocks, id) {
        let (p, start, end) = choose|p: int, start: u64, end: u64| #[trigger]
            is_read(request, start, end) && 0 <= p < parts.len() && (#[trigger] parts[p]).block_id
                == id && parts[p].start < end && start < parts[p].start + parts[p].len;
        let r = match crate::regions::region_plan(request.ranges@, request.decoded_size) {
            Ok(Some(ranges)) => choose|k: int|
                0 <= k < ranges.len() && (#[trigger] ranges[k]).bytes.start == start
                    && ranges[k].bytes.end == end,
            _ => 0,
        };
        assert(loaded[r].start == start && loaded[r].end == end);
        assert(crate::pack::part_overlaps(parts[p], loaded[r].start, loaded[r].end));
        assert(crate::pack::range_blocks(parts, loaded[r], parts.len() as int).contains(id));
    }
}

} // verus!
