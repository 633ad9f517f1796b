//! Bytes and lines of a document out of decoded pack blocks. A table of newline counts, one for
//! each candidate block of the document, tells which blocks have to be looked at.

use crate::error::IndexError;
use crate::pack::{ByteRange, DocumentBlock};
use std::collections::BTreeMap;
use vstd::prelude::*;

verus! {

/// Bytes of a candidate block, for which the newlines are counted.
pub const LINE_BLOCK_BYTES: u64 = 131072;

/// Bytes of the document that the parts make up.
pub open spec fn parts_size(parts: Seq<DocumentBlock>) -> nat {
    if parts.len() == 0 {
        0
    } else {
        (parts.last().start + parts.last().len) as nat
    }
}

/// The parts make up a document, one after another from its first byte.
pub open spec fn whole_parts(parts: Seq<DocumentBlock>) -> bool {
    &&& crate::pack::tiles(parts, parts_size(parts))
    &&& parts_size(parts) <= u64::MAX
    &&& forall|k: int|
        0 <= k < parts.len() ==> (#[trigger] parts[k]).offset + parts[k].len <= usize::MAX
}

/// The part that holds byte `p`.
pub open spec fn part_of(parts: Seq<DocumentBlock>, p: int) -> int {
    choose|k: int|
        0 <= k < parts.len() && (#[trigger] parts[k]).start <= p < parts[k].start + parts[k].len
}

/// The document's bytes, as far as its blocks are decoded.
pub open spec fn content(parts: Seq<DocumentBlock>, decoded: Map<usize, Vec<u8>>) -> Seq<u8> {
    Seq::new(
        parts_size(parts),
        |p: int|
            {
                let part = parts[part_of(parts, p)];
                decoded[part.block_id]@[part.offset + (p - part.start)]
            },
    )
}

/// The part's block is decoded and holds the part's bytes before byte `end` of the document.
pub open spec fn part_ready(
    part: DocumentBlock,
    decoded: Map<usize, Vec<u8>>,
    end: int,
) -> bool {
    &&& decoded.contains_key(part.block_id)
    &&& part.offset + (if end < part.start + part.len {
        end - part.start
    } else {
        part.len as int
    }) <= decoded[part.block_id]@.len()
}

/// Every block that the range needs is decoded.
pub open spec fn range_ready(
    parts: Seq<DocumentBlock>,
    decoded: Map<usize, Vec<u8>>,
    range: ByteRange,
) -> bool {
    forall|k: int|
        0 <= k < parts.len() && crate::pack::part_overlaps(#[trigger] parts[k], range.start, range.end)
            ==> part_ready(parts[k], decoded, range.end as int)
}

/// Every block of the document is decoded.
pub open spec fn all_ready(parts: Seq<DocumentBlock>, decoded: Map<usize, Vec<u8>>) -> bool {
    forall|k: int|
        0 <= k < parts.len() ==> part_ready(
            #[trigger] parts[k],
            decoded,
            parts[k].start + parts[k].len,
        )
}

/// The error names the part's block, which is not decoded, or the block is shorter than the
/// part's bytes before byte `end` of the document.
pub open spec fn part_fault(
    part: DocumentBlock,
    decoded: Map<usize, Vec<u8>>,
    end: int,
    error: IndexError,
) -> bool {
    match error {
        IndexError::BlockNotDecoded { block } => part.block_id == block && !decoded.contains_key(
            block,
        ),
        IndexError::DecodedBlockShort => decoded.contains_key(part.block_id) && !part_ready(
            part,
            decoded,
            end,
        ),
        _ => false,
    }
}

/// The error is the fault of a part that shares a byte with `low..high`.
pub open spec fn not_ready(
    parts: Seq<DocumentBlock>,
    decoded: Map<usize, Vec<u8>>,
    low: int,
    high: int,
    error: IndexError,
) -> bool {
    exists|k: int|
        0 <= k < parts.len() && (#[trigger] parts[k]).start + parts[k].len > low && parts[k].start
            < high && part_fault(parts[k], decoded, high, error)
}

/// Every byte of a document lies in one of its parts.
pub proof fn lemma_part_exists(parts: Seq<DocumentBlock>, p: int)
    requires
        whole_parts(parts),
        0 <= p < parts_size(parts),
    ensures
        ({
            let k = part_of(parts, p);
            0 <= k < parts.len() && parts[k].start <= p < parts[k].start + parts[k].len
        }),
{
    lemma_part_from(parts, 0, p);
}

proof fn lemma_part_from(parts: Seq<DocumentBlock>, k: int, p: int)
    requires
        whole_parts(parts),
        0 <= k < parts.len(),
        parts[k].start <= p < parts_size(parts),
    ensures
        exists|j: int|
            0 <= j < parts.len() && (#[trigger] parts[j]).start <= p < parts[j].start
                + parts[j].len,
    decreases parts.len() - k,
{
    assert(crate::pack::part_joins(parts, parts_size(parts) as int, k));
    if p >= parts[k].start + parts[k].len {
        lemma_part_from(parts, k + 1, p);
    }
}

/// Where every block that shares a byte with a range is decoded, no read of the range fails for
/// want of one, whatever else of the document is missing.
pub proof fn ready_ranges_read(
    parts: Seq<DocumentBlock>,
    decoded: Map<usize, Vec<u8>>,
    range: ByteRange,
    error: IndexError,
)
    requires
        range_ready(parts, decoded, range),
    ensures
        !not_ready(parts, decoded, range.start as int, range.end as int, error),
{
    let (low, high) = (range.start as int, range.end as int);
    if not_ready(parts, decoded, low, high, error) {
        let k = choose|k: int|
            0 <= k < parts.len() && (#[trigger] parts[k]).start + parts[k].len > low
                && parts[k].start < high && part_fault(parts[k], decoded, high, error);
        assert(crate::pack::part_overlaps(parts[k], range.start, range.end));
        assert(part_ready(parts[k], decoded, high));
    }
}

/// Where every block of a document is decoded, none of its reads fails for want of one.
pub proof fn ready_documents_read(
    parts: Seq<DocumentBlock>,
    decoded: Map<usize, Vec<u8>>,
    low: int,
    high: int,
    error: IndexError,
)
    requires
        all_ready(parts, decoded),
    ensures
        !not_ready(parts, decoded, low, high, error),
{
    if not_ready(parts, decoded, low, high, error) {
        let k = choose|k: int|
            0 <= k < parts.len() && (#[trigger] parts[k]).start + parts[k].len > low
                && parts[k].start < high && part_fault(parts[k], decoded, high, error);
        assert(part_ready(parts[k], decoded, parts[k].start + parts[k].len));
    }
}

proof fn lemma_part_of(parts: Seq<DocumentBlock>, k: int, p: int)
    requires
        whole_parts(parts),
        0 <= k < parts.len(),
        parts[k].start <= p < parts[k].start + parts[k].len,
    ensures
        part_of(parts, p) == k,
        p < parts_size(parts),
{
    crate::pack::lemma_tile_bound(parts, parts_size(parts), k);
    let c = part_of(parts, p);
    assert(0 <= c < parts.len() && parts[c].start <= p < parts[c].start + parts[c].len);
    crate::pack::lemma_tile_bound(parts, parts_size(parts), c);
}

/// How far the parts before part `k` reach.
spec fn reach(parts: Seq<DocumentBlock>, k: int) -> int {
    if k < parts.len() {
        parts[k].start as int
    } else {
        parts_size(parts) as int
    }
}

spec fn clamp(p: int, low: int, high: int) -> int {
    if p < low {
        low
    } else if p > high {
        high
    } else {
        p
    }
}

/// Read a byte range of a document.
pub fn read_range(
    parts: &[DocumentBlock],
    decoded: &BTreeMap<usize, Vec<u8>>,
    range: ByteRange,
) -> (bytes: Result<Vec<u8>, IndexError>)
    requires
        whole_parts(parts@),
    ensures
        bytes is Ok <==> range.start <= range.end && (range.start == range.end || range.end
            <= parts_size(parts@) && range_ready(parts@, decoded@, range)),
        match bytes {
            Ok(list) => list@ == (if range.start == range.end {
                Seq::empty()
            } else {
                content(parts@, decoded@).subrange(range.start as int, range.end as int)
            }),
            Err(e) => if range.start > range.end {
                e == IndexError::RangeReversed
            } else {
                not_ready(parts@, decoded@, range.start as int, range.end as int, e) || e
                    == IndexError::RangeIncomplete && range.end > parts_size(parts@)
            },
        },
{
    broadcast use vstd::std_specs::btree::group_btree_axioms;

    if range.start > range.end {
        return Err(IndexError::RangeReversed);
    }
    let mut output: Vec<u8> = Vec::new();
    if range.start == range.end {
        assert(output@ =~= Seq::empty());
        return Ok(output);
    }
    let ghost size = parts_size(parts@);
    let ghost bytes = content(parts@, decoded@);
    let ghost low = range.start as int;
    let ghost high = if range.end <= size {
        range.end as int
    } else if range.start <= size {
        size as int
    } else {
        low
    };
    let mut k: usize = 0;
    proof {
        if parts@.len() > 0 {
            assert(crate::pack::part_joins(parts@, size as int, 0));
        }
        assert(reach(parts@, 0) == 0);
        if low <= size {
            assert(output@ =~= bytes.subrange(low, low));
        }
    }
    while k < parts.len()
        invariant
            k <= parts.len(),
            whole_parts(parts@),
            size == parts_size(parts@),
            bytes == content(parts@, decoded@),
            low == range.start,
            range.start < range.end,
            low <= size ==> low <= high <= size,
            low <= size ==> high == if range.end <= size {
                range.end as int
            } else {
                size as int
            },
            low <= size ==> output@ == bytes.subrange(low, clamp(reach(parts@, k as int), low, high)),
            low > size ==> output@.len() == 0,
            forall|j: int|
                0 <= j < k && crate::pack::part_overlaps(#[trigger] parts@[j], range.start, range.end)
                    ==> part_ready(parts@[j], decoded@, range.end as int),
        decreases parts.len() - k,
    {
        let part: DocumentBlock = parts[k];
        proof {
            assert(crate::pack::part_joins(parts@, size as int, k as int));
            crate::pack::lemma_tile_bound(parts@, size, k as int);
        }
        let part_end: u64 = part.start + part.len as u64;
        if part_end > range.start && part.start < range.end {
            assert(crate::pack::part_overlaps(parts@[k as int], range.start, range.end));
            let from: usize = (if range.start > part.start {
                range.start - part.start
            } else {
                0
            }) as usize;
            let to: usize = (if range.end < part_end {
                range.end - part.start
            } else {
                part.len as u64
            }) as usize;
            let block: &Vec<u8> = match decoded.get(&part.block_id) {
                Some(block) => block,
                None => {
                    assert(parts@[k as int].block_id == part.block_id);
                    return Err(IndexError::BlockNotDecoded { block: part.block_id });
                },
            };
            if part.offset + to > block.len() {
                assert(decoded@.contains_key(parts@[k as int].block_id));
                return Err(IndexError::DecodedBlockShort);
            }
            let ghost before = output@;
            let slice = vstd::slice::slice_subrange(
                block.as_slice(),
                part.offset + from,
                part.offset + to,
            );
            output.extend_from_slice(slice);
            proof {
                let old_end = clamp(reach(parts@, k as int), low, high);
                let new_end = clamp(reach(parts@, k + 1), low, high);
                assert(old_end == part.start + from);
                assert(new_end == part.start + to);
                let added = block@.subrange(part.offset + from, part.offset + to);
                assert(added =~= bytes.subrange(old_end, new_end)) by {
                    assert forall|i: int| 0 <= i < added.len() implies added[i] == bytes.subrange(
                        old_end,
                        new_end,
                    )[i] by {
                        lemma_part_of(parts@, k as int, old_end + i);
                    }
                }
                assert(output@ =~= bytes.subrange(low, new_end));
            }
        } else {
            assert(!crate::pack::part_overlaps(parts@[k as int], range.start, range.end));
        }
        k = k + 1;
    }
    if output.len() as u64 != range.end - range.start {
        return Err(IndexError::RangeIncomplete);
    }
    Ok(output)
}

/// Byte `p` of the document ends a line. Where the table counts no newline in the block of `p`,
/// none is looked for.
pub open spec fn is_newline(bytes: Seq<u8>, newlines: Seq<u32>, p: int) -> bool {
    bytes[p] == 10 && p / 131072 < newlines.len() && newlines[p / 131072] > 0
}

/// Where the `n`th line back from `p` begins: behind the `n`th newline before `p`, or at 0.
pub open spec fn back(bytes: Seq<u8>, newlines: Seq<u32>, p: int, n: int) -> int
    decreases p,
{
    if p <= 0 || n <= 0 {
        if p <= 0 {
            0
        } else {
            p
        }
    } else if is_newline(bytes, newlines, p - 1) {
        if n == 1 {
            p
        } else {
            back(bytes, newlines, p - 1, n - 1)
        }
    } else {
        back(bytes, newlines, p - 1, n)
    }
}

/// Behind the `n`th newline from `p` on, or the document's end.
pub open spec fn ahead(bytes: Seq<u8>, newlines: Seq<u32>, p: int, n: int) -> int
    decreases bytes.len() - p,
{
    if p >= bytes.len() || n <= 0 {
        p
    } else if is_newline(bytes, newlines, p) {
        ahead(bytes, newlines, p + 1, n - 1)
    } else {
        ahead(bytes, newlines, p + 1, n)
    }
}

proof fn lemma_back_skip(bytes: Seq<u8>, newlines: Seq<u32>, low: int, p: int, n: int)
    requires
        0 <= low <= p,
        n > 0,
        forall|q: int| low <= q < p ==> !is_newline(bytes, newlines, q),
    ensures
        back(bytes, newlines, p, n) == back(bytes, newlines, low, n),
    decreases p,
{
    if low < p {
        assert(!is_newline(bytes, newlines, p - 1));
        lemma_back_skip(bytes, newlines, low, p - 1, n);
    }
}

proof fn lemma_ahead_skip(bytes: Seq<u8>, newlines: Seq<u32>, p: int, high: int, n: int)
    requires
        0 <= p <= high <= bytes.len(),
        n > 0,
        forall|q: int| p <= q < high ==> !is_newline(bytes, newlines, q),
    ensures
        ahead(bytes, newlines, p, n) == ahead(bytes, newlines, high, n),
    decreases high - p,
{
    if p < high {
        assert(!is_newline(bytes, newlines, p));
        lemma_ahead_skip(bytes, newlines, p + 1, high, n);
    }
}

pub proof fn lemma_back_bound(bytes: Seq<u8>, newlines: Seq<u32>, p: int, n: int)
    requires
        0 <= p,
    ensures
        0 <= back(bytes, newlines, p, n) <= p,
    decreases p,
{
    if p > 0 && n > 0 {
        lemma_back_bound(bytes, newlines, p - 1, n - 1);
        lemma_back_bound(bytes, newlines, p - 1, n);
    }
}

pub proof fn lemma_ahead_bound(bytes: Seq<u8>, newlines: Seq<u32>, p: int, n: int)
    requires
        0 <= p <= bytes.len(),
    ensures
        p <= ahead(bytes, newlines, p, n) <= bytes.len(),
    decreases bytes.len() - p,
{
    if p < bytes.len() && n > 0 {
        lemma_ahead_bound(bytes, newlines, p + 1, n - 1);
        lemma_ahead_bound(bytes, newlines, p + 1, n);
    }
}

/// The range that starts `before` lines above the line of `range.start` and ends `after` lines
/// below the line that holds the last byte of `range`.
pub open spec fn line_range(
    bytes: Seq<u8>,
    newlines: Seq<u32>,
    range: ByteRange,
    before: int,
    after: int,
) -> (int, int) {
    (
        back(bytes, newlines, range.start as int, before + 1),
        ahead(
            bytes,
            newlines,
            range.end as int,
            after + if range.end > 0 && bytes[range.end - 1] == 10 {
                0int
            } else {
                1int
            },
        ),
    )
}

/// The table lacks a block of the document.
pub open spec fn table_short(newlines: Seq<u32>, size: nat) -> bool {
    newlines.len() * 131072 < size
}

/// How far down from `p` newlines are looked for to find the `n`th line back: to the start of the
/// candidate block that holds the newline before it.
pub open spec fn looked_back(bytes: Seq<u8>, newlines: Seq<u32>, p: int, n: int) -> int {
    let start = back(bytes, newlines, p, n);
    if start <= 0 {
        0
    } else {
        (start - 1) / 131072 * 131072
    }
}

/// How far up from `p` newlines are looked for to find the `n`th: to the end of the candidate
/// block that holds it.
pub open spec fn looked_ahead(bytes: Seq<u8>, newlines: Seq<u32>, p: int, n: int) -> int {
    if p >= bytes.len() || n <= 0 {
        p
    } else {
        let end = ((ahead(bytes, newlines, p, n) - 1) / 131072 + 1) * 131072;
        if end < bytes.len() {
            end
        } else {
            bytes.len() as int
        }
    }
}

/// The error is the fault of a part that shares a byte with `low..high` in a candidate block for
/// which the table counts a newline.
pub open spec fn stretch_not_ready(
    parts: Seq<DocumentBlock>,
    decoded: Map<usize, Vec<u8>>,
    newlines: Seq<u32>,
    low: int,
    high: int,
    error: IndexError,
) -> bool {
    exists|b: int|
        0 <= b < newlines.len() && #[trigger] newlines[b] > 0 && not_ready(
            parts,
            decoded,
            if low < b * 131072 {
                b * 131072
            } else {
                low
            },
            if high < (b + 1) * 131072 {
                high
            } else {
                (b + 1) * 131072
            },
            error,
        )
}

/// The start of a full-line range: `before` lines above that of `at`.
fn extend_back(
    parts: &[DocumentBlock],
    decoded: &BTreeMap<usize, Vec<u8>>,
    block_newlines: &[u32],
    at: u64,
    before: usize,
) -> (start: Result<u64, IndexError>)
    requires
        whole_parts(parts@),
        at <= parts_size(parts@),
        before < usize::MAX,
    ensures
        match start {
            Ok(start) => start == back(
                content(parts@, decoded@),
                block_newlines@,
                at as int,
                before + 1,
            ),
            Err(e) => stretch_not_ready(
                parts@,
                decoded@,
                block_newlines@,
                looked_back(content(parts@, decoded@), block_newlines@, at as int, before + 1),
                at as int,
                e,
            ) || e == IndexError::NewlineBlockMissing && at > 0 && (at - 1) / 131072
                >= block_newlines@.len(),
        },
{
    let ghost bytes = content(parts@, decoded@);
    let ghost newlines = block_newlines@;
    let ghost target = back(bytes, newlines, at as int, before + 1);
    let mut start: u64 = at;
    let mut needed: usize = before + 1;
    while start > 0 && needed > 0
        invariant
            whole_parts(parts@),
            start <= at <= parts_size(parts@),
            bytes == content(parts@, decoded@),
            newlines == block_newlines@,
            target == back(bytes, newlines, at as int, before + 1),
            start == at || start % 131072 == 0 || needed == 0,
            start == at || (at - 1) / 131072 < newlines.len(),
            needed > 0 ==> back(bytes, newlines, start as int, needed as int) == target,
            needed == 0 ==> start == target,
        decreases start, needed,
    {
        proof {
            lemma_back_bound(bytes, newlines, start as int, needed as int);
        }
        let block: u64 = (start - 1) / LINE_BLOCK_BYTES;
        let block_start: u64 = block * LINE_BLOCK_BYTES;
        if block >= block_newlines.len() as u64 {
            return Err(IndexError::NewlineBlockMissing);
        }
        if block_newlines[block as usize] == 0 {
            proof {
                assert forall|q: int| block_start <= q < start implies !is_newline(
                    bytes,
                    newlines,
                    q,
                ) by {
                    assert(q / 131072 == block);
                }
                lemma_back_skip(bytes, newlines, block_start as int, start as int, needed as int);
            }
            start = block_start;
            continue;
        }
        let read = match read_range(parts, decoded, ByteRange { start: block_start, end: start }) {
            Ok(read) => read,
            Err(e) => {
                assert(newlines[block as int] > 0);
                return Err(e);
            },
        };
        let ghost from = start as int;
        let mut i: usize = read.len();
        while i > 0 && needed > 0
            invariant
                i <= read.len(),
                bytes == content(parts@, decoded@),
                read@ == bytes.subrange(block_start as int, from),
                from <= parts_size(parts@) <= u64::MAX,
                block_start < from <= block_start + 131072,
                block_start == block * 131072,
                block < newlines.len(),
                newlines[block as int] > 0,
                needed > 0 ==> back(bytes, newlines, block_start + i, needed as int) == target,
                needed == 0 ==> start == target && block_start < start <= from,
                needed > 0 ==> start == from,
            decreases i, needed,
        {
            assert((block_start + i - 1) / 131072 == block);
            assert(read@[i - 1] == bytes[block_start + i - 1]);
            if read[i - 1] == 10 {
                needed = needed - 1;
                if needed == 0 {
                    start = block_start + i as u64;
                    assert(back(bytes, newlines, block_start + i, 1) == block_start + i);
                }
            }
            i = i - 1;
        }
        if needed > 0 {
            start = block_start;
        }
    }
    if needed > 0 {
        start = 0;
    }
    Ok(start)
}

/// Behind the `needed`th newline from `at` on.
fn extend_ahead(
    parts: &[DocumentBlock],
    decoded: &BTreeMap<usize, Vec<u8>>,
    block_newlines: &[u32],
    decoded_size: u64,
    at: u64,
    lines: usize,
) -> (end: Result<u64, IndexError>)
    requires
        whole_parts(parts@),
        decoded_size == parts_size(parts@),
        at <= decoded_size,
    ensures
        match end {
            Ok(end) => end == ahead(
                content(parts@, decoded@),
                block_newlines@,
                at as int,
                lines as int,
            ),
            Err(e) => {
                let high = looked_ahead(
                    content(parts@, decoded@),
                    block_newlines@,
                    at as int,
                    lines as int,
                );
                stretch_not_ready(parts@, decoded@, block_newlines@, at as int, high, e) || e
                    == IndexError::NewlineBlockMissing && high > block_newlines@.len() * 131072
            },
        },
{
    let ghost bytes = content(parts@, decoded@);
    let ghost newlines = block_newlines@;
    let ghost target = ahead(bytes, newlines, at as int, lines as int);
    let mut end: u64 = at;
    let mut needed: usize = lines;
    while end < decoded_size && needed > 0
        invariant
            whole_parts(parts@),
            end <= decoded_size,
            decoded_size == parts_size(parts@),
            bytes == content(parts@, decoded@),
            newlines == block_newlines@,
            at <= end,
            target == ahead(bytes, newlines, at as int, lines as int),
            end == at || end % 131072 == 0 || needed == 0 || end == decoded_size,
            needed > 0 ==> lines > 0,
            ahead(bytes, newlines, end as int, needed as int) == target,
        decreases decoded_size - end, needed,
    {
        proof {
            lemma_ahead_bound(bytes, newlines, end + 1, needed as int);
            lemma_ahead_bound(bytes, newlines, end + 1, needed - 1);
            assert(target > end);
        }
        let block: u64 = end / LINE_BLOCK_BYTES;
        let in_block: u64 = end % LINE_BLOCK_BYTES;
        let block_end: u64 = if LINE_BLOCK_BYTES - in_block < decoded_size - end {
            end + (LINE_BLOCK_BYTES - in_block)
        } else {
            decoded_size
        };
        if block >= block_newlines.len() as u64 {
            return Err(IndexError::NewlineBlockMissing);
        }
        if block_newlines[block as usize] == 0 {
            proof {
                assert forall|q: int| end <= q < block_end implies !is_newline(
                    bytes,
                    newlines,
                    q,
                ) by {
                    assert(q / 131072 == block);
                }
                lemma_ahead_skip(bytes, newlines, end as int, block_end as int, needed as int);
            }
            end = block_end;
            continue;
        }
        let read = match read_range(parts, decoded, ByteRange { start: end, end: block_end }) {
            Ok(read) => read,
            Err(e) => {
                assert(newlines[block as int] > 0);
                return Err(e);
            },
        };
        let ghost from = end as int;
        let mut i: usize = 0;
        let mut found: bool = false;
        while i < read.len() && !found
            invariant
                i <= read.len(),
                bytes == content(parts@, decoded@),
                read@ == bytes.subrange(from, block_end as int),
                from < block_end <= decoded_size == parts_size(parts@),
                from / 131072 == block,
                from >= 0,
                block_end <= block * 131072 + 131072,
                block < newlines.len(),
                newlines[block as int] > 0,
                end == if found {
                    from + i
                } else {
                    from
                },
                found <==> needed == 0,
                ahead(bytes, newlines, from + i, needed as int) == target,
            decreases read.len() - i,
        {
            assert((from + i) / 131072 == block);
            assert(read@[i as int] == bytes[from + i]);
            if read[i] == 10 {
                needed = needed - 1;
                if needed == 0 {
                    end = end + (i as u64 + 1);
                    found = true;
                }
            }
            i = i + 1;
        }
        if !found {
            end = block_end;
        }
    }
    if needed > 0 {
        end = decoded_size;
    }
    Ok(end)
}

/// How many newlines end a range that is widened by `after` lines.
pub open spec fn newlines_owed(bytes: Seq<u8>, range: ByteRange, after: int) -> int {
    after + if range.end > 0 && bytes[range.end - 1] == 10 {
        0int
    } else {
        1int
    }
}

/// Why a range cannot be widened to its lines: a block of the stretch in which newlines are looked
/// for, or that of the range's last byte, is not at hand; the table ends before that stretch does;
/// or a number of lines overflows.
pub open spec fn widening_failure(
    parts: Seq<DocumentBlock>,
    decoded: Map<usize, Vec<u8>>,
    newlines: Seq<u32>,
    range: ByteRange,
    before: usize,
    after: usize,
    error: IndexError,
) -> bool {
    let bytes = content(parts, decoded);
    let owed = newlines_owed(bytes, range, after as int);
    let high = looked_ahead(bytes, newlines, range.end as int, owed);
    ||| error == IndexError::LineOverflow && (before == usize::MAX || owed > usize::MAX)
    ||| stretch_not_ready(
        parts,
        decoded,
        newlines,
        looked_back(bytes, newlines, range.start as int, before + 1),
        range.start as int,
        error,
    )
    ||| range.end > 0 && not_ready(parts, decoded, range.end - 1, range.end as int, error)
    ||| stretch_not_ready(parts, decoded, newlines, range.end as int, high, error)
    ||| error == IndexError::NewlineBlockMissing && (range.start > 0 && (range.start - 1) / 131072
        >= newlines.len() || high > newlines.len() * 131072)
}

/// Widen a range to whole lines, with lines of context.
#[verifier::rlimit(30)]
pub fn extend_line_range(
    parts: &[DocumentBlock],
    decoded: &BTreeMap<usize, Vec<u8>>,
    block_newlines: &[u32],
    decoded_size: u64,
    range: ByteRange,
    before_context: usize,
    after_context: usize,
) -> (extended: Result<ByteRange, IndexError>)
    requires
        whole_parts(parts@),
        decoded_size == parts_size(parts@),
        range.start <= decoded_size,
        range.end <= decoded_size,
    ensures
        match extended {
            Ok(lines) => (lines.start as int, lines.end as int) == line_range(
                content(parts@, decoded@),
                block_newlines@,
                range,
                before_context as int,
                after_context as int,
            ) && (table_accurate(content(parts@, decoded@), block_newlines@) && range.start
                <= range.end ==> context_held(
                content(parts@, decoded@),
                range,
                before_context as int,
                after_context as int,
                lines.start as int,
                lines.end as int,
            )),
            Err(e) => widening_failure(
                parts@,
                decoded@,
                block_newlines@,
                range,
                before_context,
                after_context,
                e,
            ),
        },
{
    if before_context == usize::MAX {
        return Err(IndexError::LineOverflow);
    }
    let start: u64 = match extend_back(
        parts,
        decoded,
        block_newlines,
        range.start,
        before_context,
    ) {
        Ok(start) => start,
        Err(e) => return Err(e),
    };
    let mut ends_line: bool = false;
    if range.end > 0 {
        let last = match read_range(
            parts,
            decoded,
            ByteRange { start: range.end - 1, end: range.end },
        ) {
            Ok(last) => last,
            Err(e) => return Err(e),
        };
        assert(last@[0] == content(parts@, decoded@)[range.end - 1]);
        ends_line = last[0] == 10;
    }
    let lines: usize = if ends_line {
        after_context
    } else if after_context == usize::MAX {
        return Err(IndexError::LineOverflow);
    } else {
        after_context + 1
    };
    let end: u64 = match extend_ahead(
        parts,
        decoded,
        block_newlines,
        decoded_size,
        range.end,
        lines,
    ) {
        Ok(end) => end,
        Err(e) => return Err(e),
    };
    proof {
        let bytes = content(parts@, decoded@);
        if table_accurate(bytes, block_newlines@) && range.start <= range.end {
            line_ranges_hold_the_context_asked_for(
                bytes,
                block_newlines@,
                range,
                before_context as int,
                after_context as int,
            );
        }
    }
    Ok(ByteRange { start, end })
}

/// Newlines from `low` up to `high`, as far as the table sends one to look for them.
pub open spec fn newlines_between(
    bytes: Seq<u8>,
    newlines: Seq<u32>,
    low: int,
    high: int,
) -> nat
    decreases high - low,
{
    if high <= low {
        0
    } else {
        newlines_between(bytes, newlines, low, high - 1) + if is_newline(
            bytes,
            newlines,
            high - 1,
        ) {
            1nat
        } else {
            0nat
        }
    }
}

/// Sum of the first `n` counts.
pub open spec fn count_sum(newlines: Seq<u32>, n: int) -> nat
    decreases n,
{
    if n <= 0 {
        0
    } else {
        count_sum(newlines, n - 1) + newlines[n - 1] as nat
    }
}

/// The number of the line that byte `p` lies in, counted from 1: the table gives the newlines of
/// the blocks before that of `p`, the bytes those of its own block.
pub open spec fn line_number(bytes: Seq<u8>, newlines: Seq<u32>, p: int) -> nat {
    1 + count_sum(newlines, p / 131072) + newlines_between(
        bytes,
        newlines,
        p / 131072 * 131072,
        p,
    )
}

/// The table counts newlines in block `k` that the block does not hold.
pub open spec fn miscounted(bytes: Seq<u8>, newlines: Seq<u32>, k: int) -> bool {
    0 <= k < newlines.len() && newlines[k] > 0 && forall|q: int|
        k * 131072 <= q < (k + 1) * 131072 && q < bytes.len() ==> #[trigger] bytes[q] != 10
}

proof fn lemma_newlines_between_bound(bytes: Seq<u8>, newlines: Seq<u32>, low: int, high: int)
    ensures
        newlines_between(bytes, newlines, low, high) <= if low < high {
            high - low
        } else {
            0
        },
    decreases high - low,
{
    if low < high {
        lemma_newlines_between_bound(bytes, newlines, low, high - 1);
    }
}

/// Why a line cannot be located: its byte lies outside the document or behind the table, a block
/// of the stretch in which its start is looked for is not at hand or holds fewer newlines than the
/// table counts, or its number overflows.
pub open spec fn locating_failure(
    parts: Seq<DocumentBlock>,
    decoded: Map<usize, Vec<u8>>,
    newlines: Seq<u32>,
    offset: u64,
    error: IndexError,
) -> bool {
    let bytes = content(parts, decoded);
    let low = looked_back(bytes, newlines, offset as int, 1);
    ||| error == IndexError::RangeIncomplete && offset > parts_size(parts)
    ||| error == IndexError::NewlineBlockMissing && offset / 131072 > newlines.len()
    ||| stretch_not_ready(parts, decoded, newlines, low, offset as int, error)
    ||| error == IndexError::LineOverflow && line_number(bytes, newlines, offset as int) > u64::MAX
    ||| error == IndexError::NewlineCount && exists|k: int|
        low <= k * 131072 < offset && #[trigger] miscounted(bytes, newlines, k)
}

/// The number and the first byte of the line that holds byte `offset`.
#[verifier::rlimit(30)]
pub fn locate_line(
    parts: &[DocumentBlock],
    decoded: &BTreeMap<usize, Vec<u8>>,
    block_newlines: &[u32],
    offset: u64,
) -> (line: Result<(u64, u64), IndexError>)
    requires
        whole_parts(parts@),
    ensures
        match line {
            Ok((number, first)) => number == line_number(
                content(parts@, decoded@),
                block_newlines@,
                offset as int,
            ) && first == back(content(parts@, decoded@), block_newlines@, offset as int, 1)
                && offset <= parts_size(parts@),
            Err(e) => locating_failure(parts@, decoded@, block_newlines@, offset, e),
        },
{
    let ghost bytes = content(parts@, decoded@);
    let ghost newlines = block_newlines@;
    if offset == 0 {
        assert(count_sum(newlines, 0) == 0);
        assert(newlines_between(bytes, newlines, 0, 0) == 0);
        return Ok((1, 0));
    }
    let mut decoded_size: u64 = 0;
    if parts.len() > 0 {
        proof {
            crate::pack::lemma_tile_bound(parts@, parts_size(parts@), parts@.len() - 1);
        }
        decoded_size = parts[parts.len() - 1].start + parts[parts.len() - 1].len as u64;
    }
    if offset > decoded_size {
        return Err(IndexError::RangeIncomplete);
    }
    let block: u64 = offset / LINE_BLOCK_BYTES;
    if block > block_newlines.len() as u64 {
        return Err(IndexError::NewlineBlockMissing);
    }
    let block: usize = block as usize;
    let mut before: u64 = 0;
    let mut b: usize = 0;
    while b < block
        invariant
            b <= block <= block_newlines.len(),
            newlines == block_newlines@,
            block == offset / 131072,
            before == count_sum(newlines, b as int),
            bytes == content(parts@, decoded@),
        decreases block - b,
    {
        match before.checked_add(block_newlines[b] as u64) {
            Some(sum) => {
                before = sum;
            },
            None => {
                proof {
                    lemma_count_sum_grows(newlines, b + 1, block as int);
                }
                return Err(IndexError::LineOverflow);
            },
        }
        b = b + 1;
    }
    let block_start: u64 = block as u64 * LINE_BLOCK_BYTES;
    let looked: bool = block < block_newlines.len() && block_newlines[block] > 0;
    let within: Vec<u8> = if looked {
        match read_range(parts, decoded, ByteRange { start: block_start, end: offset }) {
            Ok(read) => read,
            Err(e) => {
                proof {
                    lemma_back_bound(bytes, newlines, offset as int, 1);
                    assert(newlines[block as int] > 0);
                }
                return Err(e);
            },
        }
    } else {
        Vec::new()
    };
    let mut count: u64 = 0;
    let mut last: Option<usize> = None;
    let mut i: usize = 0;
    while i < within.len()
        invariant
            i <= within.len(),
            count <= i,
            bytes == content(parts@, decoded@),
            block_start == block * 131072,
            block_start <= offset < block_start + 131072,
            offset <= bytes.len(),
            looked ==> block < newlines.len() && newlines[block as int] > 0,
            looked ==> within@.len() == offset - block_start,
            looked ==> forall|q: int|
                0 <= q < within@.len() ==> #[trigger] within@[q] == bytes[block_start + q],
            !looked ==> within@.len() == 0,
            count == newlines_between(bytes, newlines, block_start as int, block_start + i),
            match last {
                Some(at) => at < i && is_newline(bytes, newlines, block_start + at) && forall|q: int|
                    block_start + at < q < block_start + i ==> !is_newline(bytes, newlines, q),
                None => forall|q: int|
                    block_start <= q < block_start + i ==> !is_newline(bytes, newlines, q),
            },
        decreases within.len() - i,
    {
        assert((block_start + i) / 131072 == block);
        if within[i] == 10 {
            count = count + 1;
            last = Some(i);
        }
        i = i + 1;
    }
    proof {
        if !looked {
            lemma_newlines_none(bytes, newlines, block_start as int, offset as int);
        }
    }
    let line: u64 = match before.checked_add(count) {
        Some(sum) => match sum.checked_add(1) {
            Some(line) => line,
            None => return Err(IndexError::LineOverflow),
        },
        None => return Err(IndexError::LineOverflow),
    };
    proof {
        assert forall|q: int| block_start <= q < offset && (match last {
            Some(at) => block_start + at < q,
            None => true,
        }) implies !is_newline(bytes, newlines, q) by {
            assert(q / 131072 == block);
        }
    }
    match last {
        Some(at) => {
            let first: u64 = block_start + (at as u64 + 1);
            proof {
                lemma_back_skip(bytes, newlines, first as int, offset as int, 1);
            }
            return Ok((line, first));
        },
        None => {
            proof {
                lemma_back_skip(bytes, newlines, block_start as int, offset as int, 1);
            }
        },
    }
    let mut previous: usize = block;
    while previous > 0
        invariant
            whole_parts(parts@),
            previous <= block <= block_newlines.len(),
            newlines == block_newlines@,
            bytes == content(parts@, decoded@),
            block * 131072 <= offset <= decoded_size == parts_size(parts@),
            line == line_number(bytes, newlines, offset as int),
            back(bytes, newlines, offset as int, 1) == back(bytes, newlines, previous * 131072, 1),
        decreases previous,
    {
        let k: usize = previous - 1;
        let k_start: u64 = k as u64 * LINE_BLOCK_BYTES;
        let k_end: u64 = previous as u64 * LINE_BLOCK_BYTES;
        if block_newlines[k] == 0 {
            proof {
                assert forall|q: int| k_start <= q < k_end implies !is_newline(bytes, newlines, q) by {
                    assert(q / 131072 == k);
                }
                lemma_back_skip(bytes, newlines, k_start as int, k_end as int, 1);
            }
            previous = k;
            continue;
        }
        proof {
            lemma_back_bound(bytes, newlines, k_end as int, 1);
        }
        let read = match read_range(parts, decoded, ByteRange { start: k_start, end: k_end }) {
            Ok(read) => read,
            Err(e) => {
                assert(newlines[k as int] > 0);
                return Err(e);
            },
        };
        let mut at: usize = read.len();
        while at > 0 && read[at - 1] != 10
            invariant
                at <= read.len(),
                read@.len() == 131072,
                k_start == k * 131072,
                k_end == k_start + 131072,
                k_end <= bytes.len(),
                read@ == bytes.subrange(k_start as int, k_end as int),
                forall|q: int| k_start + at <= q < k_end ==> #[trigger] bytes[q] != 10,
            decreases at,
        {
            assert(read@[at - 1] == bytes[k_start + at - 1]);
            at = at - 1;
        }
        if at == 0 {
            assert(miscounted(bytes, newlines, k as int));
            proof {
                assert forall|q: int| k_start <= q < k_end implies !is_newline(
                    bytes,
                    newlines,
                    q,
                ) by {
                    assert(bytes[q] != 10);
                }
                lemma_back_skip(bytes, newlines, k_start as int, k_end as int, 1);
                lemma_back_bound(bytes, newlines, k_start as int, 1);
            }
            return Err(IndexError::NewlineCount);
        }
        proof {
            assert(read@[at - 1] == bytes[k_start + at - 1]);
            assert((k_start + at - 1) / 131072 == k);
            assert forall|q: int| k_start + at <= q < k_end implies !is_newline(
                bytes,
                newlines,
                q,
            ) by {
                assert(bytes[q] != 10);
            }
            lemma_back_skip(bytes, newlines, k_start + at, k_end as int, 1);
            assert(is_newline(bytes, newlines, k_start + at - 1));
        }
        return Ok((line, k_start + at as u64));
    }
    Ok((line, 0))
}

proof fn lemma_count_sum_grows(newlines: Seq<u32>, a: int, b: int)
    requires
        a <= b,
    ensures
        count_sum(newlines, a) <= count_sum(newlines, b),
    decreases b - a,
{
    if a < b {
        lemma_count_sum_grows(newlines, a, b - 1);
    }
}

proof fn lemma_newlines_none(bytes: Seq<u8>, newlines: Seq<u32>, low: int, high: int)
    requires
        forall|q: int| low <= q < high ==> !is_newline(bytes, newlines, q),
    ensures
        newlines_between(bytes, newlines, low, high) == 0,
    decreases high - low,
{
    if low < high {
        assert(!is_newline(bytes, newlines, high - 1));
        lemma_newlines_none(bytes, newlines, low, high - 1);
    }
}

/// Newline bytes from `low` up to `high`.
pub open spec fn newline_bytes(bytes: Seq<u8>, low: int, high: int) -> nat
    decreases high - low,
{
    if high <= low {
        0
    } else {
        newline_bytes(bytes, low, high - 1) + if bytes[high - 1] == 10 {
            1nat
        } else {
            0nat
        }
    }
}

/// The table's count for block `k` is the number of newline bytes in it.
pub open spec fn block_counted(bytes: Seq<u8>, newlines: Seq<u32>, k: int) -> bool {
    newlines[k] == newline_bytes(bytes, k * 131072, if (k + 1) * 131072 < bytes.len() {
        (k + 1) * 131072
    } else {
        bytes.len() as int
    })
}

/// The table counts the newlines of every block of the document.
pub open spec fn table_accurate(bytes: Seq<u8>, newlines: Seq<u32>) -> bool {
    &&& !table_short(newlines, bytes.len())
    &&& forall|k: int| 0 <= k < newlines.len() ==> #[trigger] block_counted(bytes, newlines, k)
}

pub proof fn lemma_newline_bytes_split(bytes: Seq<u8>, low: int, mid: int, high: int)
    requires
        low <= mid <= high,
    ensures
        newline_bytes(bytes, low, high) == newline_bytes(bytes, low, mid) + newline_bytes(
            bytes,
            mid,
            high,
        ),
    decreases high - mid,
{
    if mid < high {
        lemma_newline_bytes_split(bytes, low, mid, high - 1);
    }
}

proof fn lemma_counts_before(bytes: Seq<u8>, newlines: Seq<u32>, n: int)
    requires
        table_accurate(bytes, newlines),
        0 <= n <= newlines.len(),
        n * 131072 <= bytes.len(),
    ensures
        count_sum(newlines, n) == newline_bytes(bytes, 0, n * 131072),
    decreases n,
{
    if n > 0 {
        lemma_counts_before(bytes, newlines, n - 1);
        assert(block_counted(bytes, newlines, n - 1));
        lemma_newline_bytes_split(bytes, 0, (n - 1) * 131072, n * 131072);
    }
}

proof fn lemma_looked_newlines(bytes: Seq<u8>, newlines: Seq<u32>, low: int, high: int)
    requires
        table_accurate(bytes, newlines),
        0 <= low,
        high <= bytes.len(),
    ensures
        newlines_between(bytes, newlines, low, high) == newline_bytes(bytes, low, high),
    decreases high - low,
{
    if low < high {
        lemma_looked_newlines(bytes, newlines, low, high - 1);
        lemma_accurate_newline(bytes, newlines, high - 1);
    }
}

proof fn lemma_accurate_newline(bytes: Seq<u8>, newlines: Seq<u32>, p: int)
    requires
        table_accurate(bytes, newlines),
        0 <= p < bytes.len(),
    ensures
        is_newline(bytes, newlines, p) <==> bytes[p] == 10,
{
    let k = p / 131072;
    assert(0 <= k < newlines.len());
    assert(block_counted(bytes, newlines, k));
    if bytes[p] == 10 {
        let end = if (k + 1) * 131072 < bytes.len() {
            (k + 1) * 131072
        } else {
            bytes.len() as int
        };
        lemma_newline_bytes_split(bytes, k * 131072, p + 1, end);
        assert(newline_bytes(bytes, k * 131072, p + 1) > 0);
    }
}

/// The newlines from `low` up to `high` are the bytes with value 10 there.
pub proof fn newlines_are_counted(bytes: Seq<u8>, low: int, high: int)
    requires
        0 <= low <= high <= bytes.len(),
    ensures
        newline_bytes(bytes, low, high) == bytes.subrange(low, high).to_multiset().count(10),
    decreases high - low,
{
    broadcast use vstd::seq_lib::group_to_multiset_ensures;
    broadcast use vstd::multiset::group_multiset_axioms;

    if low < high {
        newlines_are_counted(bytes, low, high - 1);
        assert(bytes.subrange(low, high) =~= bytes.subrange(low, high - 1).push(bytes[high - 1]));
    } else {
        assert(bytes.subrange(low, high) =~= Seq::empty());
        assert(bytes.subrange(low, high).to_multiset().len() == 0);
    }
}

/// A line starts at the document's start or behind a newline, and holds no newline up to any byte
/// that is on it.
pub proof fn lines_start_behind_newlines(bytes: Seq<u8>, p: int)
    requires
        0 <= p <= bytes.len(),
    ensures
        ({
            let start = crate::matches::line_start(bytes, p);
            &&& 0 <= start <= p
            &&& start == 0 || bytes[start - 1] == 10
            &&& forall|q: int| start <= q < p ==> #[trigger] bytes[q] != 10
        }),
    decreases p,
{
    if p > 0 && bytes[p - 1] != 10 {
        lines_start_behind_newlines(bytes, p - 1);
    }
}

/// There are no more newlines than bytes.
pub proof fn lemma_newlines_within(bytes: Seq<u8>, low: int, high: int)
    requires
        low <= high,
    ensures
        newline_bytes(bytes, low, high) <= high - low,
    decreases high - low,
{
    if low < high {
        lemma_newlines_within(bytes, low, high - 1);
    }
}

/// How many newlines there are behind the start of the `n`th line back from `p`.
proof fn lemma_back_count(bytes: Seq<u8>, newlines: Seq<u32>, p: int, n: int)
    requires
        table_accurate(bytes, newlines),
        0 <= p <= bytes.len(),
        n > 0,
    ensures
        ({
            let start = back(bytes, newlines, p, n);
            let there = newline_bytes(bytes, 0, p);
            &&& 0 <= start <= p
            &&& newline_bytes(bytes, start, p) == if there < n {
                there as int
            } else {
                n - 1
            }
            &&& there < n ==> start == 0
            &&& start == 0 || bytes[start - 1] == 10
        }),
    decreases p,
{
    lemma_back_bound(bytes, newlines, p, n);
    if p > 0 {
        lemma_accurate_newline(bytes, newlines, p - 1);
        let start = back(bytes, newlines, p, n);
        if bytes[p - 1] == 10 {
            if n > 1 {
                lemma_back_count(bytes, newlines, p - 1, n - 1);
            }
        } else {
            lemma_back_count(bytes, newlines, p - 1, n);
        }
    }
}

/// How many newlines there are from `p` up to behind the `n`th.
proof fn lemma_ahead_count(bytes: Seq<u8>, newlines: Seq<u32>, p: int, n: int)
    requires
        table_accurate(bytes, newlines),
        0 <= p <= bytes.len(),
        n >= 0,
    ensures
        ({
            let end = ahead(bytes, newlines, p, n);
            let there = newline_bytes(bytes, p, bytes.len() as int);
            &&& p <= end <= bytes.len()
            &&& newline_bytes(bytes, p, end) == if there < n {
                there as int
            } else {
                n
            }
            &&& there < n ==> end == bytes.len()
            &&& n > 0 && there >= n ==> end > p && bytes[end - 1] == 10
            &&& n == 0 ==> end == p
        }),
    decreases bytes.len() - p,
{
    lemma_ahead_bound(bytes, newlines, p, n);
    if p < bytes.len() && n > 0 {
        lemma_accurate_newline(bytes, newlines, p);
        let next = if bytes[p] == 10 {
            n - 1
        } else {
            n
        };
        lemma_ahead_count(bytes, newlines, p + 1, next);
        let end = ahead(bytes, newlines, p, n);
        assert(newline_bytes(bytes, p, p) == 0);
        lemma_newline_bytes_split(bytes, p, p + 1, end);
        lemma_newline_bytes_split(bytes, p, p + 1, bytes.len() as int);
    }
}

/// How many bytes with value 10 there are from `low` up to `high`.
pub open spec fn line_ends(bytes: Seq<u8>, low: int, high: int) -> nat {
    bytes.subrange(low, high).to_multiset().count(10)
}

/// `start..end` is `range` with the lines of context that were asked for, and no others. Above the line
/// on which the range starts stand as many lines as were asked for, or all there are; behind the line
/// that holds its last byte likewise. It starts where a line starts, and ends behind a newline or,
/// where there are not enough lines, with the document.
pub open spec fn context_held(
    bytes: Seq<u8>,
    range: ByteRange,
    before: int,
    after: int,
    start: int,
    end: int,
) -> bool {
    let above = line_ends(bytes, 0, range.start as int);
    let last = if range.end > 0 {
        range.end - 1
    } else {
        0
    };
    let below = line_ends(bytes, last, bytes.len() as int);
    &&& 0 <= start <= range.start
    &&& start == 0 || bytes[start - 1] == 10
    &&& line_ends(bytes, start, range.start as int) == if above < before {
        above as int
    } else {
        before
    }
    &&& range.end <= end <= bytes.len()
    &&& line_ends(bytes, last, end) == if below < after + 1 {
        below as int
    } else {
        after + 1
    }
    &&& if below < after + 1 {
        end == bytes.len()
    } else {
        end > 0 && bytes[end - 1] == 10
    }
}

/// With an accurate table a range is widened by the lines of context that were asked for, and by no
/// others.
pub proof fn line_ranges_hold_the_context_asked_for(
    bytes: Seq<u8>,
    newlines: Seq<u32>,
    range: ByteRange,
    before: int,
    after: int,
)
    requires
        table_accurate(bytes, newlines),
        range.start <= range.end <= bytes.len(),
        0 <= before,
        0 <= after,
    ensures
        ({
            let (start, end) = line_range(bytes, newlines, range, before, after);
            context_held(bytes, range, before, after, start, end)
        }),
{
    let (start, end) = line_range(bytes, newlines, range, before, after);
    let size = bytes.len() as int;
    lemma_back_count(bytes, newlines, range.start as int, before + 1);
    newlines_are_counted(bytes, 0, range.start as int);
    newlines_are_counted(bytes, start, range.start as int);
    if start == 0 {
        assert(newline_bytes(bytes, 0, range.start as int) <= before + 1);
    }
    let last = if range.end > 0 {
        range.end - 1
    } else {
        0
    };
    let owed = after + if range.end > 0 && bytes[range.end - 1] == 10 {
        0int
    } else {
        1int
    };
    lemma_ahead_count(bytes, newlines, range.end as int, owed);
    newlines_are_counted(bytes, last, size);
    newlines_are_counted(bytes, last, end);
    lemma_newline_bytes_split(bytes, last, range.end as int, size);
    lemma_newline_bytes_split(bytes, last, range.end as int, end);
    if range.end > 0 {
        assert(newline_bytes(bytes, last, last) == 0);
    }
}

/// With an accurate table a line's number is one more than the newlines before it in the
/// document.
pub proof fn line_numbers_count_newlines(bytes: Seq<u8>, newlines: Seq<u32>, p: int)
    requires
        table_accurate(bytes, newlines),
        0 <= p <= bytes.len(),
    ensures
        line_number(bytes, newlines, p) == 1 + newline_bytes(bytes, 0, p),
{
    let k = p / 131072;
    lemma_counts_before(bytes, newlines, k);
    lemma_looked_newlines(bytes, newlines, k * 131072, p);
    lemma_newline_bytes_split(bytes, 0, k * 131072, p);
}

/// With an accurate table a byte is placed on its line: as many lines as there are newlines before it
/// come before its line, which starts at the document's start or behind a newline, with no newline up
/// to the byte.
pub proof fn bytes_are_placed_on_their_lines(bytes: Seq<u8>, newlines: Seq<u32>, p: int)
    requires
        table_accurate(bytes, newlines),
        0 <= p <= bytes.len(),
    ensures
        ({
            let start = back(bytes, newlines, p, 1);
            &&& line_number(bytes, newlines, p) == 1 + line_ends(bytes, 0, p)
            &&& 0 <= start <= p
            &&& start == 0 || bytes[start - 1] == 10
            &&& line_ends(bytes, start, p) == 0
        }),
{
    line_numbers_count_newlines(bytes, newlines, p);
    newlines_are_counted(bytes, 0, p);
    lemma_back_count(bytes, newlines, p, 1);
    newlines_are_counted(bytes, back(bytes, newlines, p, 1), p);
}

/// With an accurate table a full-line range starts at the document's start or behind a newline,
/// and ends at the document's end or behind one.
pub proof fn line_ranges_are_whole_lines(
    bytes: Seq<u8>,
    newlines: Seq<u32>,
    range: ByteRange,
    before: int,
    after: int,
)
    requires
        table_accurate(bytes, newlines),
        range.start <= range.end <= bytes.len(),
        0 <= before,
        0 <= after,
    ensures
        ({
            let (start, end) = line_range(bytes, newlines, range, before, after);
            &&& 0 <= start <= range.start
            &&& range.end <= end <= bytes.len()
            &&& start == 0 || bytes[start - 1] == 10
            &&& end == 0 || end == bytes.len() || bytes[end - 1] == 10
        }),
{
    lemma_back_bound(bytes, newlines, range.start as int, before + 1);
    lemma_back_line(bytes, newlines, range.start as int, before + 1);
    let lines = after + if range.end > 0 && bytes[range.end - 1] == 10 {
        0int
    } else {
        1int
    };
    lemma_ahead_bound(bytes, newlines, range.end as int, lines);
    lemma_ahead_line(bytes, newlines, range.end as int, lines);
}

proof fn lemma_back_line(bytes: Seq<u8>, newlines: Seq<u32>, p: int, n: int)
    requires
        0 <= p,
        n > 0,
    ensures
        back(bytes, newlines, p, n) == 0 || bytes[back(bytes, newlines, p, n) - 1] == 10,
    decreases p,
{
    if p > 0 {
        if n > 1 {
            lemma_back_line(bytes, newlines, p - 1, n - 1);
        }
        lemma_back_line(bytes, newlines, p - 1, n);
    }
}

proof fn lemma_ahead_line(bytes: Seq<u8>, newlines: Seq<u32>, p: int, n: int)
    requires
        0 <= p <= bytes.len(),
    ensures
        ({
            let end = ahead(bytes, newlines, p, n);
            end == bytes.len() || end == p || bytes[end - 1] == 10
        }),
        n > 0 ==> ({
            let end = ahead(bytes, newlines, p, n);
            end == bytes.len() || bytes[end - 1] == 10
        }),
    decreases bytes.len() - p,
{
    if p < bytes.len() && n > 0 {
        lemma_ahead_line(bytes, newlines, p + 1, n - 1);
        lemma_ahead_line(bytes, newlines, p + 1, n);
    }
}

/// The longest stretch without a newline that ends at one of the first `n` bytes.
pub open spec fn longest_line(bytes: Seq<u8>, n: int) -> int
    decreases n,
{
    if n <= 0 {
        0
    } else {
        let run = n - crate::matches::line_start(bytes, n);
        if run > longest_line(bytes, n - 1) {
            run
        } else {
            longest_line(bytes, n - 1)
        }
    }
}

/// A line length as tables hold it.
pub open spec fn length_field(len: int) -> u32 {
    if len < u32::MAX {
        len as u32
    } else {
        u32::MAX
    }
}

/// What tables say of a document's lines: how long the longest is, and how many newlines each
/// block holds.
pub fn measure_lines(bytes: &[u8]) -> (lines: (u32, Vec<u32>))
    ensures
        lines.0 == length_field(longest_line(bytes@, bytes@.len() as int)),
        lines.1@.len() == (bytes@.len() + 131071) / 131072,
        table_accurate(bytes@, lines.1@),
{
    let mut counts: Vec<u32> = Vec::new();
    let mut open: u32 = 0;
    let mut begun: usize = 0;
    let mut start: usize = 0;
    let mut longest: usize = 0;
    let mut at: usize = 0;
    while at < bytes.len()
        invariant
            at <= bytes@.len(),
            begun == counts@.len() * 131072,
            begun <= at <= begun + 131072,
            at == begun ==> at == 0,
            open == newline_bytes(bytes@, begun as int, at as int),
            open <= at - begun,
            start == crate::matches::line_start(bytes@, at as int),
            start <= at,
            longest == longest_line(bytes@, at as int),
            longest <= at,
            forall|k: int|
                0 <= k < counts@.len() ==> #[trigger] block_counted(bytes@, counts@, k),
        decreases bytes@.len() - at,
    {
        if at - begun == 131072 {
            let ghost held = counts@;
            counts.push(open);
            assert forall|k: int| 0 <= k < counts@.len() implies #[trigger] block_counted(
                bytes@,
                counts@,
                k,
            ) by {
                if k < held.len() {
                    assert(block_counted(bytes@, held, k));
                }
            }
            begun = at;
            open = 0;
            assert(open == newline_bytes(bytes@, begun as int, at as int));
        }
        if bytes[at] == 10 {
            open = open + 1;
            start = at + 1;
        }
        at = at + 1;
        if at - start > longest {
            longest = at - start;
        }
    }
    if at > begun {
        let ghost held = counts@;
        counts.push(open);
        assert forall|k: int| 0 <= k < counts@.len() implies #[trigger] block_counted(
            bytes@,
            counts@,
            k,
        ) by {
            if k < held.len() {
                assert(block_counted(bytes@, held, k));
            }
        }
    }
    let longest_field: u32 = if (longest as u64) < 0xffff_ffff {
        longest as u32
    } else {
        0xffff_ffff
    };
    (longest_field, counts)
}

/// Two places on one line are no further apart than the longest line is long.
pub proof fn lines_are_as_long_as_measured(bytes: Seq<u8>, p: int, q: int)
    requires
        0 <= p <= q <= bytes.len(),
        forall|k: int| p <= k < q ==> #[trigger] bytes[k] != 10,
    ensures
        q - p <= longest_line(bytes, bytes.len() as int),
{
    lemma_run_start(bytes, p, q);
    lemma_longest_line(bytes, q, bytes.len() as int);
}

proof fn lemma_run_start(bytes: Seq<u8>, p: int, q: int)
    requires
        0 <= p <= q <= bytes.len(),
        forall|k: int| p <= k < q ==> #[trigger] bytes[k] != 10,
    ensures
        crate::matches::line_start(bytes, q) <= p,
    decreases q,
{
    if q > p {
        assert(bytes[q - 1] != 10);
        lemma_run_start(bytes, p, q - 1);
    } else if q > 0 && bytes[q - 1] != 10 {
        lemma_run_start(bytes, p - 1, q - 1);
    }
}

proof fn lemma_longest_line(bytes: Seq<u8>, q: int, n: int)
    requires
        0 <= q <= n,
    ensures
        q - crate::matches::line_start(bytes, q) <= longest_line(bytes, n),
    decreases n,
{
    if q < n {
        lemma_longest_line(bytes, q, n - 1);
    }
}

/// A stretch of bytes without a newline.
pub open spec fn unbroken(bytes: Seq<u8>, p: int, q: int) -> bool {
    0 <= p <= q <= bytes.len() && forall|k: int| p <= k < q ==> #[trigger] bytes[k] != 10
}

/// A document has a line as long as the longest is said to be.
pub proof fn longest_lines_are_there(bytes: Seq<u8>, n: int)
    requires
        0 <= n <= bytes.len(),
    ensures
        exists|p: int, q: int| #[trigger] unbroken(bytes, p, q) && q - p == longest_line(bytes, n),
    decreases n,
{
    if n <= 0 {
        assert(unbroken(bytes, 0, 0));
    } else {
        longest_lines_are_there(bytes, n - 1);
        lines_start_behind_newlines(bytes, n);
        assert(unbroken(bytes, crate::matches::line_start(bytes, n), n));
    }
}

} // verus!
