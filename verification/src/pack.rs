//! Pack planning: which blocks hold a document, which of them a read needs, and how to fetch them
//! in few contiguous ranges.

use crate::batches::greedy_batches;
use crate::error::IndexError;
use crate::format::PackBlock;
use std::collections::BTreeSet;
use vstd::prelude::*;

verus! {

/// Compressed bytes of one fetched range at most.
pub const RANGE_BYTES: u64 = 8388608;

/// Documents of this size are fetched on their own.
pub const LARGE_DOCUMENT_BYTES: u64 = 16777216;

pub const WINDOW_BYTES: u64 = 33554432;

pub const WINDOW_DOCUMENTS: usize = 1024;

pub const REGION_GAP_BYTES: u64 = 1048576;

pub const REGION_MAX_RANGES: usize = 512;

/// Where a document's bytes start.
#[derive(Debug, Clone, Copy, PartialEq, Eq, Structural)]
pub struct PackSlice {
    pub first_block: u32,
    pub block_offset: u32,
}

/// A request for a whole document.
#[derive(Debug, Clone, Copy, PartialEq, Eq, Structural)]
pub struct PackRequest {
    pub index: usize,
    pub slice: PackSlice,
    pub decoded_size: u64,
}

/// A document's part of one block: `len` bytes from `offset` of the block are the document's
/// bytes from `start`.
#[derive(Debug, Clone, Copy, PartialEq, Eq, Structural)]
pub struct DocumentBlock {
    pub block_id: usize,
    pub start: u64,
    pub offset: usize,
    pub len: usize,
}

/// Blocks that lie one after another in a pack.
#[derive(Debug)]
pub struct PackRun {
    pub pack: u32,
    pub offset: u64,
    pub len: u64,
    pub blocks: Vec<usize>,
}

/// The block past the last one that `remaining` bytes from `offset` of block `k` touch.
pub open spec fn span_end(blocks: Seq<PackBlock>, k: int, offset: int, remaining: int) -> Result<
    int,
    IndexError,
>
    decreases blocks.len() - k,
{
    if remaining <= 0 {
        Ok(k)
    } else if k >= blocks.len() {
        Err(IndexError::DocumentOutsideBlocks)
    } else if offset > blocks[k].decoded_len {
        Err(IndexError::BlockOffsetBounds)
    } else if offset == blocks[k].decoded_len {
        Err(IndexError::BlockExhausted)
    } else {
        span_end(blocks, k + 1, 0, remaining - (blocks[k].decoded_len - offset))
    }
}

/// The blocks that a document touches.
pub open spec fn document_span(slice: PackSlice, len: u64, blocks: Seq<PackBlock>) -> Result<
    (int, int),
    IndexError,
> {
    if len == 0 {
        if slice.first_block == 0 && slice.block_offset == 0 {
            Ok((0, 0))
        } else {
            Err(IndexError::EmptyDocumentCoordinates)
        }
    } else {
        match span_end(blocks, slice.first_block as int, slice.block_offset as int, len as int) {
            Ok(end) => Ok((slice.first_block as int, end)),
            Err(e) => Err(e),
        }
    }
}

/// The blocks that a document reaches from and to.
pub fn block_span(slice: PackSlice, len: u64, blocks: &[PackBlock]) -> (span: Result<
    (usize, usize),
    IndexError,
>)
    ensures
        match span {
            Ok(range) => document_span(slice, len, blocks@) == Ok::<(int, int), IndexError>(
                (range.0 as int, range.1 as int),
            ) && range.0 <= range.1 <= blocks@.len(),
            Err(e) => document_span(slice, len, blocks@) == Err::<(int, int), IndexError>(e),
        },
{
    if len == 0 {
        if slice.first_block != 0 || slice.block_offset != 0 {
            return Err(IndexError::EmptyDocumentCoordinates);
        }
        return Ok((0, 0));
    }
    let start: usize = slice.first_block as usize;
    let mut block_id: usize = start;
    let mut offset: u64 = slice.block_offset as u64;
    let mut remaining: u64 = len;
    while remaining > 0
        invariant
            len > 0,
            start == slice.first_block,
            start <= block_id,
            remaining > 0 || block_id <= blocks@.len(),
            span_end(blocks@, start as int, slice.block_offset as int, len as int) == span_end(
                blocks@,
                block_id as int,
                offset as int,
                remaining as int,
            ),
        decreases remaining,
    {
        if block_id >= blocks.len() {
            return Err(IndexError::DocumentOutsideBlocks);
        }
        let decoded_len: u64 = blocks[block_id].decoded_len as u64;
        if offset > decoded_len {
            return Err(IndexError::BlockOffsetBounds);
        }
        let available: u64 = decoded_len - offset;
        if available == 0 {
            return Err(IndexError::BlockExhausted);
        }
        proof {
            if remaining < available {
                // the document ends inside this block
                assert(span_end(blocks@, block_id + 1, 0, remaining - available)
                    == span_end(blocks@, block_id + 1, 0, 0));
            }
        }
        remaining = remaining - if remaining < available { remaining } else { available };
        block_id = block_id + 1;
        offset = 0;
    }
    Ok((start, block_id))
}

/// The parts of a document from byte `start` on: `remaining` bytes from `offset` of block `k`.
pub open spec fn parts_from(
    blocks: Seq<PackBlock>,
    k: int,
    offset: int,
    start: int,
    remaining: int,
) -> Seq<DocumentBlock>
    decreases blocks.len() - k,
{
    if remaining <= 0 || k >= blocks.len() || offset >= blocks[k].decoded_len {
        Seq::empty()
    } else {
        let available = blocks[k].decoded_len - offset;
        let len = if remaining < available {
            remaining
        } else {
            available
        };
        seq![
            DocumentBlock {
                block_id: k as usize,
                start: start as u64,
                offset: offset as usize,
                len: len as usize,
            },
        ] + parts_from(blocks, k + 1, 0, start + len, remaining - len)
    }
}

/// A document's parts, in order.
pub open spec fn document_parts(slice: PackSlice, size: u64, blocks: Seq<PackBlock>) -> Seq<
    DocumentBlock,
> {
    parts_from(blocks, slice.first_block as int, slice.block_offset as int, 0, size as int)
}

/// The parts of blocks that make up a document.
pub fn document_blocks(slice: PackSlice, decoded_size: u64, blocks: &[PackBlock]) -> (parts: Result<
    Vec<DocumentBlock>,
    IndexError,
>)
    ensures
        match parts {
            Ok(list) => document_span(slice, decoded_size, blocks@) is Ok && list@
                == document_parts(slice, decoded_size, blocks@),
            Err(e) => document_span(slice, decoded_size, blocks@) == Err::<(int, int), IndexError>(
                e,
            ),
        },
{
    let (first, end) = match block_span(slice, decoded_size, blocks) {
        Ok(span) => span,
        Err(e) => return Err(e),
    };
    let mut parts: Vec<DocumentBlock> = Vec::new();
    let mut remaining: u64 = decoded_size;
    let mut start: u64 = 0;
    let mut offset: u64 = slice.block_offset as u64;
    let mut block_id: usize = first;
    let ghost all = document_parts(slice, decoded_size, blocks@);
    assert(parts@ + all =~= all);
    while block_id < end
        invariant
            first <= block_id <= end <= blocks@.len(),
            start + remaining == decoded_size,
            decoded_size > 0 || block_id == end,
            offset <= u32::MAX,
            decoded_size > 0 ==> span_end(
                blocks@,
                block_id as int,
                offset as int,
                remaining as int,
            ) == Ok::<int, IndexError>(end as int),
            decoded_size == 0 ==> remaining == 0,
            parts@ + parts_from(
                blocks@,
                block_id as int,
                offset as int,
                start as int,
                remaining as int,
            ) == all,
        decreases end - block_id,
    {
        let decoded_len: u64 = blocks[block_id].decoded_len as u64;
        proof {
            if remaining <= 0 {
                assert(span_end(blocks@, block_id as int, offset as int, remaining as int) == Ok::<
                    int,
                    IndexError,
                >(block_id as int));
            }
        }
        let available: u64 = decoded_len - offset;
        let len: u64 = if remaining < available { remaining } else { available };
        let ghost before = parts@;
        let ghost rest = parts_from(
            blocks@,
            block_id + 1,
            0,
            start + len,
            remaining - len,
        );
        parts.push(DocumentBlock { block_id, start, offset: offset as usize, len: len as usize });
        proof {
            assert(before + (seq![parts@[before.len() as int]] + rest) =~= parts@ + rest);
            if remaining < available {
                assert(span_end(blocks@, block_id + 1, 0, remaining - available) == span_end(
                    blocks@,
                    block_id + 1,
                    0,
                    0,
                ));
            }
        }
        remaining = remaining - len;
        start = start + len;
        offset = 0;
        block_id = block_id + 1;
    }
    proof {
        let rest = parts_from(
            blocks@,
            block_id as int,
            offset as int,
            start as int,
            remaining as int,
        );
        if decoded_size > 0 {
            lemma_span_end_done(blocks@, block_id as int, offset as int, remaining as int);
        }
        assert(rest =~= Seq::<DocumentBlock>::empty());
        assert(parts@ + rest =~= parts@);
    }
    Ok(parts)
}

proof fn lemma_span_end_done(blocks: Seq<PackBlock>, k: int, offset: int, remaining: int)
    ensures
        span_end(blocks, k, offset, remaining) matches Ok(end) ==> end >= k && (end == k
            ==> remaining <= 0),
    decreases blocks.len() - k,
{
    if remaining > 0 && k < blocks.len() && offset < blocks[k].decoded_len {
        lemma_span_end_done(blocks, k + 1, 0, remaining - (blocks[k].decoded_len - offset));
    }
}

/// Part `i` is not empty and ends where the next one starts, the last one at `end`.
pub open spec fn part_joins(parts: Seq<DocumentBlock>, end: int, i: int) -> bool {
    parts[i].len > 0 && parts[i].start + parts[i].len == if i + 1 < parts.len() {
        parts[i + 1].start as int
    } else {
        end
    }
}

/// Parts follow one another from byte 0 and end at `size`.
pub open spec fn tiles(parts: Seq<DocumentBlock>, size: nat) -> bool {
    &&& forall|i: int| 0 <= i < parts.len() ==> #[trigger] part_joins(parts, size as int, i)
    &&& parts.len() == 0 ==> size == 0
    &&& parts.len() > 0 ==> parts[0].start == 0
}

proof fn lemma_parts_tile(
    blocks: Seq<PackBlock>,
    k: int,
    offset: int,
    start: int,
    remaining: int,
)
    requires
        0 <= k,
        0 <= offset <= u32::MAX,
        0 <= start,
        0 <= remaining,
        start + remaining <= u64::MAX,
        blocks.len() <= usize::MAX,
        span_end(blocks, k, offset, remaining) is Ok,
    ensures
        ({
            let parts = parts_from(blocks, k, offset, start, remaining);
            &&& forall|i: int|
                0 <= i < parts.len() ==> #[trigger] part_joins(parts, start + remaining, i)
            &&& parts.len() == 0 ==> remaining == 0
            &&& parts.len() > 0 ==> parts[0].start == start
            &&& forall|i: int|
                0 <= i < parts.len() ==> (#[trigger] parts[i]).block_id == k + i
                    && parts[i].block_id < blocks.len() && parts[i].offset + parts[i].len
                    <= blocks[k + i].decoded_len
        }),
    decreases blocks.len() - k,
{
    if remaining > 0 {
        let available = blocks[k].decoded_len - offset;
        let len = if remaining < available {
            remaining
        } else {
            available
        };
        if remaining < available {
            assert(span_end(blocks, k + 1, 0, remaining - available) is Ok);
            assert(span_end(blocks, k + 1, 0, 0) is Ok);
        }
        lemma_parts_tile(blocks, k + 1, 0, start + len, remaining - len);
        let rest = parts_from(blocks, k + 1, 0, start + len, remaining - len);
        let parts = parts_from(blocks, k, offset, start, remaining);
        assert forall|i: int| 0 <= i < parts.len() implies #[trigger] part_joins(
            parts,
            start + remaining,
            i,
        ) by {
            if i > 0 {
                assert(part_joins(rest, start + remaining, i - 1));
                assert(parts[i] == rest[i - 1]);
                if i + 1 < parts.len() {
                    assert(parts[i + 1] == rest[i]);
                }
            } else if 1 < parts.len() {
                assert(parts[1] == rest[0]);
            }
        }
        assert forall|i: int| 0 <= i < parts.len() implies (#[trigger] parts[i]).block_id == k + i
            && parts[i].block_id < blocks.len() && parts[i].offset
            + parts[i].len <= blocks[k + i].decoded_len by {
            if i > 0 {
                assert(parts[i] == rest[i - 1]);
            }
        }
    }
}

/// The parts of a document are consecutive blocks and tile the document: every byte lies in
/// exactly one part.
pub proof fn document_parts_tile(slice: PackSlice, size: u64, blocks: Seq<PackBlock>)
    requires
        blocks.len() <= usize::MAX,
        document_span(slice, size, blocks) is Ok,
    ensures
        tiles(document_parts(slice, size, blocks), size as nat),
        forall|i: int|
            0 <= i < document_parts(slice, size, blocks).len() ==> ({
                let part = #[trigger] document_parts(slice, size, blocks)[i];
                &&& part.block_id == slice.first_block + i
                &&& part.block_id < blocks.len()
                &&& part.offset + part.len <= blocks[part.block_id as int].decoded_len
            }),
{
    if size == 0 {
        assert(document_parts(slice, size, blocks) =~= Seq::<DocumentBlock>::empty());
    } else {
        lemma_parts_tile(
            blocks,
            slice.first_block as int,
            slice.block_offset as int,
            0,
            size as int,
        );
    }
}

/// A document's part shares a byte with `start..end`.
pub open spec fn part_overlaps(part: DocumentBlock, start: u64, end: u64) -> bool {
    part.start + part.len > start && part.start < end
}

/// A byte range.
#[derive(Debug, Clone, Copy, PartialEq, Eq, Structural)]
pub struct ByteRange {
    pub start: u64,
    pub end: u64,
}

/// Blocks of the first `n` parts that share a byte with `range`.
pub open spec fn range_blocks(parts: Seq<DocumentBlock>, range: ByteRange, n: int) -> Set<usize> {
    Set::new(
        |id: usize|
            exists|p: int|
                0 <= p < n && (#[trigger] parts[p]).block_id == id && part_overlaps(
                    parts[p],
                    range.start,
                    range.end,
                ),
    )
}

/// Blocks of the parts that share a byte with one of the ranges.
pub open spec fn touched_blocks(parts: Seq<DocumentBlock>, ranges: Seq<ByteRange>) -> Set<usize> {
    Set::new(
        |id: usize|
            exists|r: int|
                0 <= r < ranges.len() && range_blocks(
                    parts,
                    #[trigger] ranges[r],
                    parts.len() as int,
                ).contains(id),
    )
}

proof fn lemma_range_blocks_step(parts: Seq<DocumentBlock>, range: ByteRange, n: int)
    requires
        0 <= n < parts.len(),
    ensures
        range_blocks(parts, range, n + 1) == if part_overlaps(parts[n], range.start, range.end) {
            range_blocks(parts, range, n).insert(parts[n].block_id)
        } else {
            range_blocks(parts, range, n)
        },
{
    let grown = range_blocks(parts, range, n + 1);
    let front = range_blocks(parts, range, n);
    assert forall|id: usize| grown.contains(id) <==> front.contains(id) || (part_overlaps(
        parts[n],
        range.start,
        range.end,
    ) && parts[n].block_id == id) by {
        if grown.contains(id) {
            let p = choose|p: int|
                0 <= p < n + 1 && (#[trigger] parts[p]).block_id == id && part_overlaps(
                    parts[p],
                    range.start,
                    range.end,
                );
            if p < n {
                assert(parts[p].block_id == id);
                assert(front.contains(id));
            }
        }
        if front.contains(id) {
            let p = choose|p: int|
                0 <= p < n && (#[trigger] parts[p]).block_id == id && part_overlaps(
                    parts[p],
                    range.start,
                    range.end,
                );
            assert(parts[p].block_id == id);
        }
    }
    assert(grown =~= if part_overlaps(parts[n], range.start, range.end) {
        front.insert(parts[n].block_id)
    } else {
        front
    });
}

proof fn lemma_touched_step(parts: Seq<DocumentBlock>, ranges: Seq<ByteRange>, r: int)
    requires
        0 <= r < ranges.len(),
    ensures
        touched_blocks(parts, ranges.take(r + 1)) == touched_blocks(parts, ranges.take(r)).union(
            range_blocks(parts, ranges[r], parts.len() as int),
        ),
{
    let front = ranges.take(r);
    let grown = ranges.take(r + 1);
    let n = parts.len() as int;
    assert forall|id: usize| touched_blocks(parts, grown).contains(id) <==> touched_blocks(
        parts,
        front,
    ).contains(id) || range_blocks(parts, ranges[r], n).contains(id) by {
        if touched_blocks(parts, grown).contains(id) {
            let a = choose|a: int|
                0 <= a < grown.len() && range_blocks(parts, #[trigger] grown[a], n).contains(id);
            if a < r {
                assert(front[a] == grown[a]);
            }
        }
        if touched_blocks(parts, front).contains(id) {
            let a = choose|a: int|
                0 <= a < front.len() && range_blocks(parts, #[trigger] front[a], n).contains(id);
            assert(grown[a] == front[a]);
        }
        assert(grown[r] == ranges[r]);
    }
    assert(touched_blocks(parts, grown) =~= touched_blocks(parts, front).union(
        range_blocks(parts, ranges[r], n),
    ));
}

/// Add the blocks that byte ranges of a document need.
pub fn collect_request_blocks(
    slice: PackSlice,
    decoded_size: u64,
    ranges: &[ByteRange],
    blocks: &[PackBlock],
    output: &mut BTreeSet<usize>,
) -> (collected: Result<(), IndexError>)
    ensures
        match collected {
            Ok(_) => document_span(slice, decoded_size, blocks@) is Ok && final(output)@ == old(
                output,
            )@.union(
                touched_blocks(document_parts(slice, decoded_size, blocks@), ranges@),
            ),
            Err(e) => document_span(slice, decoded_size, blocks@) == Err::<(int, int), IndexError>(
                e,
            ) && final(output)@ == old(output)@,
        },
{
    broadcast use vstd::std_specs::btree::group_btree_axioms;

    let parts = match document_blocks(slice, decoded_size, blocks) {
        Ok(parts) => parts,
        Err(e) => return Err(e),
    };
    proof {
        assert(blocks.len() == blocks@.len());
        document_parts_tile(slice, decoded_size, blocks@);
    }
    let ghost before = output@;
    let mut r: usize = 0;
    assert(output@ =~= before.union(touched_blocks(parts@, ranges@.take(0))));
    while r < ranges.len()
        invariant
            r <= ranges.len(),
            tiles(parts@, decoded_size as nat),
            output@ == before.union(touched_blocks(parts@, ranges@.take(r as int))),
        decreases ranges.len() - r,
    {
        let range: ByteRange = ranges[r];
        let ghost earlier = output@;
        let mut p: usize = 0;
        assert(output@ =~= earlier.union(range_blocks(parts@, range, 0)));
        while p < parts.len()
            invariant
                p <= parts.len(),
                tiles(parts@, decoded_size as nat),
                output@ == earlier.union(range_blocks(parts@, range, p as int)),
            decreases parts.len() - p,
        {
            let part: DocumentBlock = parts[p];
            proof {
                lemma_tile_bound(parts@, decoded_size as nat, p as int);
                lemma_range_blocks_step(parts@, range, p as int);
            }
            let part_end: u64 = part.start + part.len as u64;
            if part_end > range.start && part.start < range.end {
                output.insert(part.block_id);
            }
            assert(output@ =~= earlier.union(range_blocks(parts@, range, p + 1)));
            p = p + 1;
        }
        proof {
            lemma_touched_step(parts@, ranges@, r as int);
            assert(output@ =~= before.union(touched_blocks(parts@, ranges@.take(r + 1))));
        }
        r = r + 1;
    }
    assert(ranges@.take(r as int) =~= ranges@);
    Ok(())
}

/// Every part ends at most where the document does, and parts are in order.
pub proof fn lemma_tile_bound(parts: Seq<DocumentBlock>, size: nat, i: int)
    requires
        tiles(parts, size),
        0 <= i < parts.len(),
    ensures
        parts[i].start + parts[i].len <= size,
        forall|j: int| i < j < parts.len() ==> parts[i].start + parts[i].len <= (
        #[trigger] parts[j]).start,
    decreases parts.len() - i,
{
    assert(part_joins(parts, size as int, i));
    if i + 1 < parts.len() {
        lemma_tile_bound(parts, size, i + 1);
        assert(part_joins(parts, size as int, i + 1));
        assert forall|j: int| i < j < parts.len() implies parts[i].start + parts[i].len <= (
        #[trigger] parts[j]).start by {
            if j > i + 1 {
                assert(parts[i + 1].start + parts[i + 1].len <= parts[j].start);
            }
        }
    }
}

/// Whether a document is read in a window of its own.
pub fn is_large_request(request: &PackRequest) -> (large: bool)
    ensures
        large == (request.decoded_size >= LARGE_DOCUMENT_BYTES),
{
    request.decoded_size >= LARGE_DOCUMENT_BYTES
}

pub open spec fn request_sizes(requests: Seq<PackRequest>) -> Seq<u64> {
    Seq::new(requests.len(), |i: int| requests[i].decoded_size)
}

pub open spec fn large_requests(requests: Seq<PackRequest>) -> Seq<bool> {
    Seq::new(requests.len(), |i: int| requests[i].decoded_size >= LARGE_DOCUMENT_BYTES)
}

/// Requests in windows that are fetched together; a large document is a window of its own.
pub fn request_windows(requests: &[PackRequest]) -> (windows: Vec<(usize, usize)>)
    ensures
        crate::batches::greedy(
            windows@,
            requests@.len() as int,
            request_sizes(requests@),
            large_requests(requests@),
            WINDOW_DOCUMENTS as nat,
            WINDOW_BYTES,
        ),
{
    let mut sizes: Vec<u64> = Vec::new();
    let mut large: Vec<bool> = Vec::new();
    let mut i: usize = 0;
    while i < requests.len()
        invariant
            i <= requests.len(),
            sizes@ == request_sizes(requests@).take(i as int),
            large@ == large_requests(requests@).take(i as int),
        decreases requests.len() - i,
    {
        sizes.push(requests[i].decoded_size);
        large.push(is_large_request(&requests[i]));
        assert(sizes@ =~= request_sizes(requests@).take(i + 1));
        assert(large@ =~= large_requests(requests@).take(i + 1));
        i = i + 1;
    }
    assert(sizes@ =~= request_sizes(requests@));
    assert(large@ =~= large_requests(requests@));
    greedy_batches(sizes.as_slice(), large.as_slice(), WINDOW_DOCUMENTS, WINDOW_BYTES)
}

/// The model of a run.
#[verifier::ext_equal]
pub struct RunView {
    pub pack: u32,
    pub offset: u64,
    pub len: u64,
    pub blocks: Seq<usize>,
}

impl PackRun {
    pub open spec fn run(self) -> RunView {
        RunView { pack: self.pack, offset: self.offset, len: self.len, blocks: self.blocks@ }
    }
}

pub open spec fn run_views(runs: Seq<PackRun>) -> Seq<RunView> {
    Seq::new(runs.len(), |i: int| runs[i].run())
}

/// `a + b`, at most the largest 64-bit number.
pub open spec fn capped(a: int, b: int) -> int {
    if a + b > u64::MAX {
        u64::MAX as int
    } else {
        a + b
    }
}

/// The block starts where the run ends, in the same pack, and the run stays short enough.
pub open spec fn continues(run: RunView, block: PackBlock) -> bool {
    &&& run.pack == block.pack
    &&& capped(run.offset as int, run.len as int) == block.offset
    &&& run.len + block.compressed_len <= RANGE_BYTES
}

pub open spec fn run_step(runs: Seq<RunView>, id: usize, block: PackBlock) -> Seq<RunView> {
    if runs.len() > 0 && continues(runs.last(), block) {
        let last = runs.last();
        runs.drop_last().push(
            RunView {
                pack: last.pack,
                offset: last.offset,
                len: (last.len + block.compressed_len) as u64,
                blocks: last.blocks.push(id),
            },
        )
    } else {
        runs.push(
            RunView {
                pack: block.pack,
                offset: block.offset,
                len: block.compressed_len as u64,
                blocks: seq![id],
            },
        )
    }
}

/// The blocks of `ids` in runs.
pub open spec fn runs_of(ids: Seq<usize>, blocks: Seq<PackBlock>) -> Seq<RunView>
    decreases ids.len(),
{
    if ids.len() == 0 {
        Seq::empty()
    } else {
        run_step(runs_of(ids.drop_last(), blocks), ids.last(), blocks[ids.last() as int])
    }
}

/// Join blocks that lie one after another into runs that are fetched as one range each.
pub fn block_runs(block_ids: &[usize], blocks: &[PackBlock]) -> (runs: Result<
    Vec<PackRun>,
    IndexError,
>)
    ensures
        match runs {
            Ok(list) => run_views(list@) == runs_of(block_ids@, blocks@) && forall|i: int|
                0 <= i < block_ids@.len() ==> block_ids@[i] < blocks@.len(),
            Err(e) => e == IndexError::MissingPackBlock && exists|i: int|
                0 <= i < block_ids@.len() && block_ids@[i] >= blocks@.len(),
        },
{
    let mut runs: Vec<PackRun> = Vec::new();
    let mut i: usize = 0;
    assert(run_views(runs@) =~= runs_of(block_ids@.take(0), blocks@));
    while i < block_ids.len()
        invariant
            i <= block_ids.len(),
            forall|k: int| 0 <= k < i ==> block_ids@[k] < blocks@.len(),
            run_views(runs@) == runs_of(block_ids@.take(i as int), blocks@),
        decreases block_ids.len() - i,
    {
        let id: usize = block_ids[i];
        if id >= blocks.len() {
            assert(block_ids@[i as int] >= blocks@.len());
            return Err(IndexError::MissingPackBlock);
        }
        let block: PackBlock = blocks[id];
        let ghost before = run_views(runs@);
        assert(block_ids@.take(i + 1).drop_last() =~= block_ids@.take(i as int));
        let mut joined: bool = false;
        if runs.len() > 0 {
            let at: usize = runs.len() - 1;
            let pack: u32 = runs[at].pack;
            let offset: u64 = runs[at].offset;
            let len: u64 = runs[at].len;
            assert(before[at as int] == runs@[at as int].run());
            let end: u64 = if len > 0xffff_ffff_ffff_ffff - offset {
                0xffff_ffff_ffff_ffff
            } else {
                offset + len
            };
            if pack == block.pack && end == block.offset && len <= RANGE_BYTES
                && block.compressed_len as u64 <= RANGE_BYTES - len {
                if let Some(last) = runs.pop() {
                    let mut ids = last.blocks;
                    ids.push(id);
                    runs.push(
                        PackRun { pack, offset, len: len + block.compressed_len as u64, blocks: ids },
                    );
                    assert(run_views(runs@) =~= run_step(before, id, block));
                }
                joined = true;
            }
        }
        if !joined {
            let mut ids: Vec<usize> = Vec::new();
            ids.push(id);
            assert(ids@ =~= seq![id]);
            runs.push(
                PackRun {
                    pack: block.pack,
                    offset: block.offset,
                    len: block.compressed_len as u64,
                    blocks: ids,
                },
            );
            assert(run_views(runs@) =~= run_step(before, id, block));
        }
        i = i + 1;
    }
    assert(block_ids@.take(i as int) =~= block_ids@);
    Ok(runs)
}

/// Compressed bytes of the first `j` blocks of `ids`.
pub open spec fn compressed_before(ids: Seq<usize>, blocks: Seq<PackBlock>, j: int) -> nat
    decreases j,
{
    if j <= 0 {
        0
    } else {
        compressed_before(ids, blocks, j - 1) + blocks[ids[j - 1] as int].compressed_len as nat
    }
}

/// The blocks of a run fill its range, one after another.
pub open spec fn run_contiguous(run: RunView, blocks: Seq<PackBlock>) -> bool {
    &&& run.len == compressed_before(run.blocks, blocks, run.blocks.len() as int)
    &&& run.offset + run.len <= u64::MAX
    &&& forall|j: int|
        0 <= j < run.blocks.len() ==> {
            let block = blocks[#[trigger] run.blocks[j] as int];
            block.pack == run.pack && block.offset == run.offset + compressed_before(
                run.blocks,
                blocks,
                j,
            )
        }
}

/// The blocks of all runs, in order.
pub open spec fn run_blocks(runs: Seq<RunView>) -> Seq<usize>
    decreases runs.len(),
{
    if runs.len() == 0 {
        Seq::empty()
    } else {
        run_blocks(runs.drop_last()) + runs.last().blocks
    }
}

proof fn lemma_compressed_before_push(ids: Seq<usize>, id: usize, blocks: Seq<PackBlock>, j: int)
    requires
        0 <= j <= ids.len(),
    ensures
        compressed_before(ids.push(id), blocks, j) == compressed_before(ids, blocks, j),
    decreases j,
{
    if j > 0 {
        lemma_compressed_before_push(ids, id, blocks, j - 1);
    }
}

proof fn lemma_extend_run(last: RunView, id: usize, blocks: Seq<PackBlock>)
    requires
        run_contiguous(last, blocks),
        id < blocks.len(),
        continues(last, blocks[id as int]),
        blocks[id as int].offset + blocks[id as int].compressed_len <= u64::MAX,
    ensures
        run_contiguous(
            RunView {
                pack: last.pack,
                offset: last.offset,
                len: (last.len + blocks[id as int].compressed_len) as u64,
                blocks: last.blocks.push(id),
            },
            blocks,
        ),
{
    let n = last.blocks.len() as int;
    let ids = last.blocks.push(id);
    lemma_compressed_before_push(last.blocks, id, blocks, n);
    assert(compressed_before(ids, blocks, n + 1) == compressed_before(ids, blocks, n)
        + blocks[ids[n] as int].compressed_len as nat);
    assert forall|j: int| 0 <= j < ids.len() implies {
        let block = blocks[#[trigger] ids[j] as int];
        block.pack == last.pack && block.offset == last.offset + compressed_before(
            ids,
            blocks,
            j,
        )
    } by {
        lemma_compressed_before_push(last.blocks, id, blocks, j);
        if j < n {
            assert(ids[j] == last.blocks[j]);
        }
    }
}

proof fn lemma_single_run(id: usize, blocks: Seq<PackBlock>)
    requires
        id < blocks.len(),
        blocks[id as int].offset + blocks[id as int].compressed_len <= u64::MAX,
    ensures
        run_contiguous(
            RunView {
                pack: blocks[id as int].pack,
                offset: blocks[id as int].offset,
                len: blocks[id as int].compressed_len as u64,
                blocks: seq![id],
            },
            blocks,
        ),
{
    let ids = seq![id];
    assert(compressed_before(ids, blocks, 0) == 0);
    assert(compressed_before(ids, blocks, 1) == compressed_before(ids, blocks, 0)
        + blocks[ids[0] as int].compressed_len as nat);
}

/// Joining into runs keeps the blocks and their order, and every run is one contiguous range of
/// its pack.
pub proof fn runs_are_contiguous(ids: Seq<usize>, blocks: Seq<PackBlock>)
    requires
        forall|i: int| 0 <= i < ids.len() ==> ids[i] < blocks.len(),
        forall|k: int|
            0 <= k < blocks.len() ==> (#[trigger] blocks[k]).offset + blocks[k].compressed_len
                <= u64::MAX,
    ensures
        run_blocks(runs_of(ids, blocks)) == ids,
        forall|r: int|
            0 <= r < runs_of(ids, blocks).len() ==> run_contiguous(
                #[trigger] runs_of(ids, blocks)[r],
                blocks,
            ),
    decreases ids.len(),
{
    if ids.len() > 0 {
        let front = ids.drop_last();
        runs_are_contiguous(front, blocks);
        let runs = runs_of(front, blocks);
        let id = ids.last();
        assert(ids[ids.len() - 1] == id);
        let block = blocks[id as int];
        let out = runs_of(ids, blocks);
        assert(front.push(id) =~= ids);
        if runs.len() > 0 && continues(runs.last(), block) {
            let last = runs[runs.len() - 1];
            assert(run_contiguous(last, blocks));
            lemma_extend_run(last, id, blocks);
            assert(out.drop_last() =~= runs.drop_last());
            assert(run_blocks(out) =~= run_blocks(runs).push(id));
        } else {
            lemma_single_run(id, blocks);
            assert(out.drop_last() =~= runs);
            assert(run_blocks(out) =~= run_blocks(runs).push(id));
        }
        assert forall|r: int| 0 <= r < out.len() implies run_contiguous(
            #[trigger] out[r],
            blocks,
        ) by {
            if r < out.len() - 1 {
                assert(out[r] == runs[r]);
                assert(run_contiguous(runs[r], blocks));
            }
        }
    }
}

pub open spec fn run_lens(runs: Seq<PackRun>) -> Seq<u64> {
    Seq::new(runs.len(), |i: int| runs[i].len)
}

/// Runs in batches of at most `max_bytes` that are fetched in one request.
pub fn run_batches(runs: &[PackRun], max_bytes: u64) -> (batches: Vec<(usize, usize)>)
    ensures
        crate::batches::greedy(
            batches@,
            runs@.len() as int,
            run_lens(runs@),
            Seq::new(runs@.len(), |i: int| false),
            usize::MAX as nat,
            max_bytes,
        ),
{
    let mut lens: Vec<u64> = Vec::new();
    let mut alone: Vec<bool> = Vec::new();
    let mut i: usize = 0;
    while i < runs.len()
        invariant
            i <= runs.len(),
            lens@ == run_lens(runs@).take(i as int),
            alone@ == Seq::new(i as nat, |k: int| false),
        decreases runs.len() - i,
    {
        lens.push(runs[i].len);
        alone.push(false);
        assert(lens@ =~= run_lens(runs@).take(i + 1));
        assert(alone@ =~= Seq::new((i + 1) as nat, |k: int| false));
        i = i + 1;
    }
    assert(lens@ =~= run_lens(runs@));
    greedy_batches(lens.as_slice(), alone.as_slice(), usize::MAX, max_bytes)
}

/// Runs are as long as they may be: a run breaks off only where the next block is in another pack, does
/// not follow it, or would make it longer than one request may be. Only a single block is longer.
pub proof fn runs_join_what_they_can(ids: Seq<usize>, blocks: Seq<PackBlock>)
    requires
        forall|i: int| 0 <= i < ids.len() ==> ids[i] < blocks.len(),
        forall|k: int|
            0 <= k < blocks.len() ==> (#[trigger] blocks[k]).offset + blocks[k].compressed_len
                <= u64::MAX,
    ensures
        forall|r: int|
            0 <= r < runs_of(ids, blocks).len() ==> (#[trigger] runs_of(ids, blocks)[r]).blocks.len()
                > 0 && (runs_of(ids, blocks)[r].len <= 8388608 || runs_of(
                ids,
                blocks,
            )[r].blocks.len() == 1),
        forall|r: int|
            0 <= r < runs_of(ids, blocks).len() - 1 ==> {
                let run = #[trigger] runs_of(ids, blocks)[r];
                let next = blocks[runs_of(ids, blocks)[r + 1].blocks[0] as int];
                run.pack != next.pack || run.offset + run.len != next.offset || run.len
                    + next.compressed_len > 8388608
            },
    decreases ids.len(),
{
    if ids.len() > 0 {
        let front = ids.drop_last();
        runs_join_what_they_can(front, blocks);
        runs_are_contiguous(front, blocks);
        let runs = runs_of(front, blocks);
        let out = runs_of(ids, blocks);
        let id = ids.last();
        assert(ids[ids.len() - 1] == id);
        let block = blocks[id as int];
        assert forall|r: int| 0 <= r < out.len() implies (#[trigger] out[r]).blocks.len() > 0 && (
        out[r].len <= 8388608 || out[r].blocks.len() == 1) by {
            if r < runs.len() {
                assert(runs[r].blocks.len() > 0);
            }
        }
        assert forall|r: int| 0 <= r < out.len() - 1 implies ({
            let run = #[trigger] out[r];
            let next = blocks[out[r + 1].blocks[0] as int];
            run.pack != next.pack || run.offset + run.len != next.offset || run.len
                + next.compressed_len > 8388608
        }) by {
            assert(runs[r].blocks.len() > 0);
            assert(run_contiguous(runs[r], blocks));
            if r + 1 < runs.len() {
                assert(runs[r + 1].blocks.len() > 0);
                assert(out[r + 1].blocks[0] == runs[r + 1].blocks[0]);
            } else {
                assert(out[r + 1].blocks[0] == id);
            }
        }
    }
}

/// A block is loaded for a range if and only if its part of the document holds a byte of the range.
pub proof fn blocks_are_loaded_for_their_bytes(part: DocumentBlock, start: u64, end: u64)
    requires
        part.len > 0,
        start < end,
    ensures
        part_overlaps(part, start, end) <==> exists|p: int|
            #![trigger in_part(part, p)]
            in_part(part, p) && start <= p < end,
{
    if part_overlaps(part, start, end) {
        let p = if part.start > start {
            part.start as int
        } else {
            start as int
        };
        assert(in_part(part, p));
    }
}

/// Byte `p` of a document lies in this part of it.
pub open spec fn in_part(part: DocumentBlock, p: int) -> bool {
    part.start <= p < part.start + part.len
}

} // verus!
