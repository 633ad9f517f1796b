//! Partial reads of documents: which byte ranges to read around candidates.

use crate::error::IndexError;
use crate::pack::{ByteRange, PackSlice, REGION_GAP_BYTES, REGION_MAX_RANGES};
use crate::sorting::{stable_sort, Keyed};
use vstd::prelude::*;

verus! {

/// A candidate range of a document. A regional one is read with enough bytes around it for a
/// match of `span` bytes; a full-line one with its whole lines and lines of context.
#[derive(Debug, Clone, Copy, PartialEq, Eq, Structural)]
pub enum PackRange {
    Regional { bytes: ByteRange, span: usize },
    FullLines { bytes: ByteRange, before_context: usize, after_context: usize },
}

#[derive(Debug, Clone, Copy, PartialEq, Eq, Structural)]
pub enum PlannedRead {
    Regional,
    FullLines { before_context: usize, after_context: usize },
}

#[derive(Debug, Clone, Copy, PartialEq, Eq, Structural)]
pub struct PlannedRange {
    pub bytes: ByteRange,
    pub read: PlannedRead,
}

impl Keyed for PlannedRange {
    open spec fn key(&self) -> (int, int, int, int, int) {
        (self.bytes.start as int, 0, 0, 0, 0)
    }

    fn precedes(&self, other: &PlannedRange) -> (before: bool) {
        self.bytes.start < other.bytes.start
    }
}

/// Both reads at once: full lines where either asks for them, with the larger contexts.
pub open spec fn joint_read(left: PlannedRead, right: PlannedRead) -> PlannedRead {
    match (left, right) {
        (PlannedRead::Regional, _) => right,
        (_, PlannedRead::Regional) => left,
        (
            PlannedRead::FullLines { before_context: b1, after_context: a1 },
            PlannedRead::FullLines { before_context: b2, after_context: a2 },
        ) => PlannedRead::FullLines {
            before_context: if b1 > b2 {
                b1
            } else {
                b2
            },
            after_context: if a1 > a2 {
                a1
            } else {
                a2
            },
        },
    }
}

fn join_reads(left: PlannedRead, right: PlannedRead) -> (read: PlannedRead)
    ensures
        read == joint_read(left, right),
{
    match (left, right) {
        (PlannedRead::Regional, _) => right,
        (_, PlannedRead::Regional) => left,
        (
            PlannedRead::FullLines { before_context: b1, after_context: a1 },
            PlannedRead::FullLines { before_context: b2, after_context: a2 },
        ) => PlannedRead::FullLines {
            before_context: if b1 > b2 { b1 } else { b2 },
            after_context: if a1 > a2 { a1 } else { a2 },
        },
    }
}

/// The range starts at most `gap` bytes past the end of the last one.
pub open spec fn near(last: PlannedRange, range: PlannedRange, gap: u64) -> bool {
    range.bytes.start <= last.bytes.end + gap
}

pub open spec fn plan_step(merged: Seq<PlannedRange>, range: PlannedRange, gap: u64) -> Seq<
    PlannedRange,
> {
    if merged.len() > 0 && near(merged.last(), range, gap) {
        let last = merged.last();
        merged.drop_last().push(
            PlannedRange {
                bytes: ByteRange {
                    start: last.bytes.start,
                    end: if last.bytes.end > range.bytes.end {
                        last.bytes.end
                    } else {
                        range.bytes.end
                    },
                },
                read: joint_read(last.read, range.read),
            },
        )
    } else {
        merged.push(range)
    }
}

pub open spec fn plan_steps(ranges: Seq<PlannedRange>, gap: u64) -> Seq<PlannedRange>
    decreases ranges.len(),
{
    if ranges.len() == 0 {
        Seq::empty()
    } else {
        plan_step(plan_steps(ranges.drop_last(), gap), ranges.last(), gap)
    }
}

/// The ranges in order, those no further than `gap` apart joined.
pub open spec fn merged_plan(ranges: Seq<PlannedRange>, gap: u64) -> Seq<PlannedRange> {
    plan_steps(crate::sorting::sort_items(ranges), gap)
}

/// The ranges ascend, and each begins further than `gap` past the end of the one before it.
pub open spec fn ranges_apart(ranges: Seq<PlannedRange>, gap: u64) -> bool {
    &&& forall|a: int| 0 <= a < ranges.len() ==> (#[trigger] ranges[a]).bytes.start <= ranges[a].bytes.end
    &&& forall|a: int, b: int|
        0 <= a < b < ranges.len() ==> (#[trigger] ranges[a]).bytes.end + gap < (
        #[trigger] ranges[b]).bytes.start
}

/// One of the ranges holds all of `range`.
pub open spec fn range_held(ranges: Seq<PlannedRange>, range: ByteRange) -> bool {
    exists|a: int|
        0 <= a < ranges.len() && (#[trigger] ranges[a]).bytes.start <= range.start && range.end
            <= ranges[a].bytes.end
}

proof fn lemma_steps_apart(ranges: Seq<PlannedRange>, gap: u64)
    requires
        crate::sorting::in_key_order(ranges),
        forall|k: int| 0 <= k < ranges.len() ==> (#[trigger] ranges[k]).bytes.start <= ranges[k].bytes.end,
    ensures
        ranges_apart(plan_steps(ranges, gap), gap),
        ranges.len() > 0 ==> plan_steps(ranges, gap).len() > 0 && plan_steps(ranges, gap).last().bytes.start
            <= ranges.last().bytes.start,
        forall|k: int|
            0 <= k < ranges.len() ==> range_held(plan_steps(ranges, gap), (#[trigger] ranges[k]).bytes),
    decreases ranges.len(),
{
    if ranges.len() > 0 {
        let rest = ranges.drop_last();
        let range = ranges.last();
        let n = rest.len() as int;
        assert forall|i: int, j: int| 0 <= i < j < rest.len() implies !crate::sorting::key_less(
            (#[trigger] rest[j]).key(),
            (#[trigger] rest[i]).key(),
        ) by {
            assert(rest[i] == ranges[i] && rest[j] == ranges[j]);
        }
        assert forall|k: int| 0 <= k < rest.len() implies (#[trigger] rest[k]).bytes.start
            <= rest[k].bytes.end by {
            assert(rest[k] == ranges[k]);
        }
        lemma_steps_apart(rest, gap);
        let front = plan_steps(rest, gap);
        let all = plan_steps(ranges, gap);
        if n > 0 {
            assert(rest.last() == ranges[n - 1]);
            assert(!crate::sorting::key_less(ranges[n].key(), ranges[n - 1].key()));
        }
        assert(range == ranges[n]);
        let joined = front.len() > 0 && near(front.last(), range, gap);
        assert forall|a: int| 0 <= a < front.len() implies (#[trigger] all[a]).bytes.start
            == front[a].bytes.start && all[a].bytes.end >= front[a].bytes.end by {}
        assert(range_held(all, range.bytes)) by {
            assert(all[all.len() - 1].bytes.start <= range.bytes.start);
        }
        assert forall|k: int| 0 <= k < ranges.len() implies range_held(
            all,
            (#[trigger] ranges[k]).bytes,
        ) by {
            if k < n {
                assert(rest[k] == ranges[k]);
                assert(range_held(front, rest[k].bytes));
                let a = choose|a: int|
                    0 <= a < front.len() && (#[trigger] front[a]).bytes.start <= rest[k].bytes.start
                        && rest[k].bytes.end <= front[a].bytes.end;
                assert(all[a].bytes.start == front[a].bytes.start);
            }
        }
        if !joined && front.len() > 0 {
            assert forall|a: int| 0 <= a < front.len() implies (#[trigger] front[a]).bytes.end + gap
                < range.bytes.start by {
                if a < front.len() - 1 {
                    assert(front[a].bytes.end + gap < front[front.len() - 1].bytes.start);
                }
            }
        }
    }
}

/// Merged ranges are disjoint and apart, and none of what was asked for is left out.
pub proof fn merged_ranges_lie_apart(ranges: Seq<PlannedRange>, gap: u64, k: int)
    requires
        forall|k: int| 0 <= k < ranges.len() ==> (#[trigger] ranges[k]).bytes.start <= ranges[k].bytes.end,
    ensures
        ranges_apart(merged_plan(ranges, gap), gap),
        0 <= k < ranges.len() ==> range_held(merged_plan(ranges, gap), ranges[k].bytes),
{
    let sorted = crate::sorting::sort_items(ranges);
    crate::sorting::sorting_orders_and_keeps(ranges);
    assert forall|j: int| 0 <= j < sorted.len() implies (#[trigger] sorted[j]).bytes.start
        <= sorted[j].bytes.end by {
        assert(sorted.contains(sorted[j]));
        let i = choose|i: int| 0 <= i < ranges.len() && ranges[i] == sorted[j];
        assert(ranges[i].bytes.start <= ranges[i].bytes.end);
    }
    lemma_steps_apart(sorted, gap);
    if 0 <= k < ranges.len() {
        assert(ranges.contains(ranges[k]));
        assert(sorted.contains(ranges[k]));
        let j = choose|j: int| 0 <= j < sorted.len() && sorted[j] == ranges[k];
        assert(range_held(merged_plan(ranges, gap), sorted[j].bytes));
    }
}

/// Join ranges that lie close together.
pub fn merge_planned_ranges(ranges: Vec<PlannedRange>, gap_bytes: u64) -> (merged: Vec<
    PlannedRange,
>)
    ensures
        merged@ == merged_plan(ranges@, gap_bytes),
{
    let sorted = stable_sort(ranges);
    let mut merged: Vec<PlannedRange> = Vec::new();
    let mut i: usize = 0;
    assert(merged@ =~= plan_steps(sorted@.take(0), gap_bytes));
    while i < sorted.len()
        invariant
            i <= sorted.len(),
            merged@ == plan_steps(sorted@.take(i as int), gap_bytes),
        decreases sorted.len() - i,
    {
        let range: PlannedRange = sorted[i];
        let ghost before = merged@;
        assert(sorted@.take(i + 1).drop_last() =~= sorted@.take(i as int));
        let mut joined: bool = false;
        if merged.len() > 0 {
            let last: PlannedRange = merged[merged.len() - 1];
            let apart: u64 = if range.bytes.start > last.bytes.end {
                range.bytes.start - last.bytes.end
            } else {
                0
            };
            if apart <= gap_bytes {
                let end: u64 = if last.bytes.end > range.bytes.end {
                    last.bytes.end
                } else {
                    range.bytes.end
                };
                merged.pop();
                merged.push(
                    PlannedRange {
                        bytes: ByteRange { start: last.bytes.start, end },
                        read: join_reads(last.read, range.read),
                    },
                );
                joined = true;
            }
        }
        if !joined {
            merged.push(range);
        }
        assert(merged@ =~= plan_step(before, range, gap_bytes));
        i = i + 1;
    }
    assert(sorted@.take(i as int) =~= sorted@);
    merged
}

/// A document request with the candidate ranges to read.
#[derive(Debug, Clone, Copy)]
pub struct PackRegionRequest<'a> {
    pub index: usize,
    pub slice: PackSlice,
    pub decoded_size: u64,
    pub ranges: &'a [PackRange],
    pub block_newlines: &'a [u32],
}

pub open spec fn range_bytes(range: PackRange) -> ByteRange {
    match range {
        PackRange::Regional { bytes, .. } => bytes,
        PackRange::FullLines { bytes, .. } => bytes,
    }
}

/// What to read for one candidate range.
pub open spec fn planned(range: PackRange, size: u64) -> Result<PlannedRange, IndexError> {
    let bytes = range_bytes(range);
    if bytes.start >= bytes.end || bytes.end > size {
        Err(
            IndexError::CandidateBytes { start: bytes.start, end: bytes.end, decoded_size: size },
        )
    } else {
        match range {
            PackRange::Regional { span, .. } => if span == 0 {
                Err(IndexError::RegionalSpan)
            } else {
                let around = span - 1;
                Ok(
                    PlannedRange {
                        bytes: ByteRange {
                            start: (if bytes.start > around {
                                bytes.start - around
                            } else {
                                0
                            }) as u64,
                            end: (if bytes.end + around < size {
                                bytes.end + around
                            } else {
                                size as int
                            }) as u64,
                        },
                        read: PlannedRead::Regional,
                    },
                )
            },
            PackRange::FullLines { before_context, after_context, .. } => Ok(
                PlannedRange {
                    bytes,
                    read: PlannedRead::FullLines { before_context, after_context },
                },
            ),
        }
    }
}

fn plan_range(range: PackRange, decoded_size: u64) -> (plan: Result<PlannedRange, IndexError>)
    ensures
        plan == planned(range, decoded_size),
{
    let bytes: ByteRange = match range {
        PackRange::Regional { bytes, .. } => bytes,
        PackRange::FullLines { bytes, .. } => bytes,
    };
    if bytes.start >= bytes.end || bytes.end > decoded_size {
        return Err(
            IndexError::CandidateBytes { start: bytes.start, end: bytes.end, decoded_size },
        );
    }
    match range {
        PackRange::Regional { span, .. } => {
            if span == 0 {
                return Err(IndexError::RegionalSpan);
            }
            let around: u64 = (span - 1) as u64;
            let start: u64 = if bytes.start > around { bytes.start - around } else { 0 };
            let end: u64 = if around < decoded_size - bytes.end {
                bytes.end + around
            } else {
                decoded_size
            };
            Ok(PlannedRange { bytes: ByteRange { start, end }, read: PlannedRead::Regional })
        },
        PackRange::FullLines { before_context, after_context, .. } => Ok(
            PlannedRange { bytes, read: PlannedRead::FullLines { before_context, after_context } },
        ),
    }
}

/// What to read for every range, or the first error.
pub open spec fn planned_all(ranges: Seq<PackRange>, size: u64) -> Result<
    Seq<PlannedRange>,
    IndexError,
>
    decreases ranges.len(),
{
    if ranges.len() == 0 {
        Ok(Seq::empty())
    } else {
        match planned_all(ranges.drop_last(), size) {
            Err(e) => Err(e),
            Ok(front) => match planned(ranges.last(), size) {
                Err(e) => Err(e),
                Ok(range) => Ok(front.push(range)),
            },
        }
    }
}

/// Bytes of all ranges.
pub open spec fn covered(ranges: Seq<PlannedRange>) -> int
    decreases ranges.len(),
{
    if ranges.len() == 0 {
        0
    } else {
        covered(ranges.drop_last()) + (ranges.last().bytes.end - ranges.last().bytes.start)
    }
}

/// The ranges to read of a document, or `None` where the whole document is read instead: when
/// there are too many ranges or they make up more than half of it.
pub open spec fn region_plan(ranges: Seq<PackRange>, size: u64) -> Result<
    Option<Seq<PlannedRange>>,
    IndexError,
> {
    match planned_all(ranges, size) {
        Err(e) => Err(e),
        Ok(list) => {
            let merged = merged_plan(list, REGION_GAP_BYTES);
            if merged.len() > REGION_MAX_RANGES || 2 * covered(merged) > size {
                Ok(None)
            } else {
                Ok(Some(merged))
            }
        },
    }
}

/// Ranges that lie in the document and do not run backwards.
pub open spec fn plan_within(ranges: Seq<PlannedRange>, size: u64) -> bool {
    forall|i: int|
        0 <= i < ranges.len() ==> (#[trigger] ranges[i]).bytes.start < ranges[i].bytes.end
            && ranges[i].bytes.end <= size
}

proof fn lemma_planned_within(ranges: Seq<PackRange>, size: u64)
    ensures
        planned_all(ranges, size) matches Ok(list) ==> plan_within(list, size),
    decreases ranges.len(),
{
    if ranges.len() > 0 {
        lemma_planned_within(ranges.drop_last(), size);
    }
}

/// Merged ranges do not overlap, so together they are no longer than the document.
spec fn spread(ranges: Seq<PlannedRange>, size: u64) -> bool {
    &&& plan_within(ranges, size)
    &&& forall|i: int, j: int|
        0 <= i < j < ranges.len() ==> (#[trigger] ranges[i]).bytes.end <= (
        #[trigger] ranges[j]).bytes.start
}

proof fn lemma_spread_covered(ranges: Seq<PlannedRange>, size: u64)
    requires
        spread(ranges, size),
    ensures
        0 <= covered(ranges) <= size,
        ranges.len() > 0 ==> covered(ranges) <= ranges.last().bytes.end,
    decreases ranges.len(),
{
    if ranges.len() > 0 {
        let front = ranges.drop_last();
        assert(spread(front, size));
        lemma_spread_covered(front, size);
        let n = ranges.len() - 1;
        assert(ranges[n].bytes.start < ranges[n].bytes.end);
        if front.len() > 0 {
            assert(ranges[n - 1].bytes.end <= ranges[n].bytes.start);
        }
    }
}

proof fn lemma_plan_steps_spread(ranges: Seq<PlannedRange>, gap: u64, size: u64)
    requires
        plan_within(ranges, size),
        crate::sorting::in_key_order(ranges),
    ensures
        spread(plan_steps(ranges, gap), size),
        ranges.len() > 0 ==> plan_steps(ranges, gap).len() > 0 && plan_steps(
            ranges,
            gap,
        ).last().bytes.start <= ranges.last().bytes.start,
    decreases ranges.len(),
{
    if ranges.len() > 0 {
        let front = ranges.drop_last();
        let n = ranges.len() - 1;
        assert(plan_within(front, size)) by {
            assert forall|i: int| 0 <= i < front.len() implies (#[trigger] front[i]).bytes.start
                < front[i].bytes.end && front[i].bytes.end <= size by {
                assert(front[i] == ranges[i]);
            }
        }
        assert(crate::sorting::in_key_order(front)) by {
            assert forall|i: int, j: int| 0 <= i < j < front.len() implies !crate::sorting::key_less(
                (#[trigger] front[j]).key(),
                (#[trigger] front[i]).key(),
            ) by {
                assert(front[i] == ranges[i] && front[j] == ranges[j]);
            }
        }
        lemma_plan_steps_spread(front, gap, size);
        let merged = plan_steps(front, gap);
        let out = plan_steps(ranges, gap);
        assert(ranges[n].bytes.start < ranges[n].bytes.end);
        if front.len() > 0 {
            assert(!crate::sorting::key_less(ranges[n].key(), ranges[n - 1].key()));
        }
        assert forall|i: int| 0 <= i < out.len() implies (#[trigger] out[i]).bytes.start
            < out[i].bytes.end && out[i].bytes.end <= size by {
            if i < merged.len() {
                assert(merged[i].bytes.start < merged[i].bytes.end);
            }
        }
        assert forall|i: int, j: int| 0 <= i < j < out.len() implies (#[trigger] out[i]).bytes.end
            <= (#[trigger] out[j]).bytes.start by {
            if j < merged.len() {
                assert(merged[i].bytes.end <= merged[j].bytes.start);
            } else if i < merged.len() - 1 {
                assert(merged[i].bytes.end <= merged[merged.len() - 1].bytes.start);
            }
        }
    }
}

/// Decide what to read of a document.
pub fn plan_pack_ranges(request: &PackRegionRequest<'_>) -> (plan: Result<
    Option<Vec<PlannedRange>>,
    IndexError,
>)
    ensures
        match plan {
            Ok(None) => region_plan(request.ranges@, request.decoded_size) == Ok::<
                Option<Seq<PlannedRange>>,
                IndexError,
            >(None),
            Ok(Some(list)) => region_plan(request.ranges@, request.decoded_size) == Ok::<
                Option<Seq<PlannedRange>>,
                IndexError,
            >(Some(list@)) && plan_within(list@, request.decoded_size),
            Err(e) => region_plan(request.ranges@, request.decoded_size) == Err::<
                Option<Seq<PlannedRange>>,
                IndexError,
            >(e),
        },
{
    let size: u64 = request.decoded_size;
    let mut ranges: Vec<PlannedRange> = Vec::new();
    let mut i: usize = 0;
    let ghost given = request.ranges@;
    assert(ranges@ =~= Seq::<PlannedRange>::empty());
    while i < request.ranges.len()
        invariant
            i <= request.ranges.len(),
            given == request.ranges@,
            size == request.decoded_size,
            planned_all(given.take(i as int), size) == Ok::<Seq<PlannedRange>, IndexError>(
                ranges@,
            ),
        decreases request.ranges.len() - i,
    {
        assert(given.take(i + 1).drop_last() =~= given.take(i as int));
        assert(given.take(i + 1).last() == given[i as int]);
        match plan_range(request.ranges[i], size) {
            Ok(range) => ranges.push(range),
            Err(e) => {
                proof {
                    lemma_planned_error(given, size, i + 1, e);
                }
                return Err(e);
            },
        }
        i = i + 1;
    }
    assert(given.take(i as int) =~= given);
    let ghost list = ranges@;
    let merged = merge_planned_ranges(ranges, REGION_GAP_BYTES);
    proof {
        lemma_planned_within(given, size);
        crate::sorting::sorting_orders_and_keeps(list);
        let sorted = crate::sorting::sort_items(list);
        assert(plan_within(sorted, size)) by {
            assert forall|k: int| 0 <= k < sorted.len() implies (#[trigger] sorted[k]).bytes.start
                < sorted[k].bytes.end && sorted[k].bytes.end <= size by {
                assert(sorted.contains(sorted[k]));
                let m = choose|m: int| 0 <= m < list.len() && list[m] == sorted[k];
                assert(list[m].bytes.start < list[m].bytes.end);
            }
        }
        lemma_plan_steps_spread(sorted, REGION_GAP_BYTES, size);
        lemma_spread_covered(merged@, size);
    }
    let mut total: u64 = 0;
    let mut k: usize = 0;
    while k < merged.len()
        invariant
            k <= merged.len(),
            spread(merged@, size),
            total == covered(merged@.take(k as int)),
        decreases merged.len() - k,
    {
        proof {
            assert(merged@.take(k + 1).drop_last() =~= merged@.take(k as int));
            assert(spread(merged@.take(k + 1), size)) by {
                let part = merged@.take(k + 1);
                assert forall|j: int| 0 <= j < part.len() implies (#[trigger] part[j]).bytes.start
                    < part[j].bytes.end && part[j].bytes.end <= size by {
                    assert(part[j] == merged@[j]);
                }
                assert forall|a: int, b: int| 0 <= a < b < part.len() implies (
                #[trigger] part[a]).bytes.end <= (#[trigger] part[b]).bytes.start by {
                    assert(part[a] == merged@[a] && part[b] == merged@[b]);
                }
            }
            lemma_spread_covered(merged@.take(k + 1), size);
            assert(merged@[k as int].bytes.start < merged@[k as int].bytes.end);
        }
        total = total + (merged[k].bytes.end - merged[k].bytes.start);
        k = k + 1;
    }
    assert(merged@.take(k as int) =~= merged@);
    if merged.len() > REGION_MAX_RANGES || total > size - total {
        Ok(None)
    } else {
        Ok(Some(merged))
    }
}

proof fn lemma_planned_error(ranges: Seq<PackRange>, size: u64, n: int, error: IndexError)
    requires
        0 <= n <= ranges.len(),
        planned_all(ranges.take(n), size) == Err::<Seq<PlannedRange>, IndexError>(error),
    ensures
        planned_all(ranges, size) == Err::<Seq<PlannedRange>, IndexError>(error),
    decreases ranges.len() - n,
{
    if n < ranges.len() {
        assert(ranges.take(n + 1).drop_last() =~= ranges.take(n));
        lemma_planned_error(ranges, size, n + 1, error);
    } else {
        assert(ranges.take(n) =~= ranges);
    }
}

/// Merged ranges lie in the document where the given ones do.
pub proof fn lemma_merged_within(ranges: Seq<PlannedRange>, gap: u64, size: u64)
    requires
        plan_within(ranges, size),
    ensures
        plan_within(merged_plan(ranges, gap), size),
{
    crate::sorting::sorting_orders_and_keeps(ranges);
    let sorted = crate::sorting::sort_items(ranges);
    assert(plan_within(sorted, size)) by {
        assert forall|k: int| 0 <= k < sorted.len() implies (#[trigger] sorted[k]).bytes.start
            < sorted[k].bytes.end && sorted[k].bytes.end <= size by {
            assert(sorted.contains(sorted[k]));
            let m = choose|m: int| 0 <= m < ranges.len() && ranges[m] == sorted[k];
            assert(ranges[m].bytes.start < ranges[m].bytes.end);
        }
    }
    lemma_plan_steps_spread(sorted, gap, size);
}

pub proof fn lemma_region_plan_within(ranges: Seq<PackRange>, size: u64)
    ensures
        region_plan(ranges, size) matches Ok(Some(merged)) ==> plan_within(merged, size),
{
    lemma_planned_within(ranges, size);
    if planned_all(ranges, size) is Ok {
        lemma_merged_within(planned_all(ranges, size)->Ok_0, REGION_GAP_BYTES, size);
    }
}

/// Some range holds byte `p`.
pub open spec fn plan_covers(ranges: Seq<PlannedRange>, p: int) -> bool {
    exists|r: int|
        0 <= r < ranges.len() && (#[trigger] ranges[r]).bytes.start <= p < ranges[r].bytes.end
}

proof fn lemma_plan_steps_cover(ranges: Seq<PlannedRange>, gap: u64, p: int)
    requires
        crate::sorting::in_key_order(ranges),
    ensures
        plan_covers(ranges, p) ==> plan_covers(plan_steps(ranges, gap), p),
        ranges.len() > 0 ==> plan_steps(ranges, gap).len() > 0 && plan_steps(
            ranges,
            gap,
        ).last().bytes.start <= ranges.last().bytes.start,
    decreases ranges.len(),
{
    if ranges.len() > 0 {
        let front = ranges.drop_last();
        let n = ranges.len() - 1;
        assert(crate::sorting::in_key_order(front)) by {
            assert forall|i: int, j: int| 0 <= i < j < front.len() implies !crate::sorting::key_less(
                (#[trigger] front[j]).key(),
                (#[trigger] front[i]).key(),
            ) by {
                assert(front[i] == ranges[i] && front[j] == ranges[j]);
            }
        }
        lemma_plan_steps_cover(front, gap, p);
        if front.len() > 0 {
            assert(!crate::sorting::key_less(ranges[n].key(), ranges[n - 1].key()));
        }
        let merged = plan_steps(front, gap);
        let out = plan_steps(ranges, gap);
        if plan_covers(ranges, p) {
            let r = choose|r: int|
                0 <= r < ranges.len() && (#[trigger] ranges[r]).bytes.start <= p
                    < ranges[r].bytes.end;
            if r < n {
                assert(front[r] == ranges[r]);
                assert(plan_covers(front, p));
                let m = choose|m: int|
                    0 <= m < merged.len() && (#[trigger] merged[m]).bytes.start <= p
                        < merged[m].bytes.end;
                assert(out[m].bytes.start <= p < out[m].bytes.end);
            } else {
                let last = out.len() - 1;
                assert(out[last].bytes.start <= p < out[last].bytes.end);
            }
        }
    }
}

/// Joining ranges loses no byte.
pub proof fn merged_plan_covers(ranges: Seq<PlannedRange>, gap: u64, p: int)
    requires
        plan_covers(ranges, p),
    ensures
        plan_covers(merged_plan(ranges, gap), p),
{
    let sorted = crate::sorting::sort_items(ranges);
    crate::sorting::sorting_orders_and_keeps(ranges);
    let r = choose|r: int|
        0 <= r < ranges.len() && (#[trigger] ranges[r]).bytes.start <= p < ranges[r].bytes.end;
    assert(sorted.contains(ranges[r]));
    let k = choose|k: int| 0 <= k < sorted.len() && sorted[k] == ranges[r];
    assert(sorted[k].bytes.start <= p < sorted[k].bytes.end);
    lemma_plan_steps_cover(sorted, gap, p);
}

/// A range of the plan serves a read: it holds its bytes, and as full lines with at least its lines of
/// context where the read asks for full lines.
pub open spec fn serves(range: PlannedRange, asked: PlannedRange) -> bool {
    &&& range.bytes.start <= asked.bytes.start && asked.bytes.end <= range.bytes.end
    &&& asked.read matches PlannedRead::FullLines { before_context: b, after_context: a } ==> (
    range.read matches PlannedRead::FullLines { before_context, after_context } && b
        <= before_context && a <= after_context)
}

/// One of the ranges serves the read.
pub open spec fn is_served(ranges: Seq<PlannedRange>, asked: PlannedRange) -> bool {
    exists|a: int| 0 <= a < ranges.len() && serves(#[trigger] ranges[a], asked)
}

/// One of the reads that the range serves asks for `before` lines above.
pub open spec fn asks_before(asked: Seq<PlannedRange>, range: PlannedRange, before: usize) -> bool {
    exists|k: int|
        0 <= k < asked.len() && serves(range, #[trigger] asked[k]) && (asked[k].read matches
            PlannedRead::FullLines { before_context, .. } && before_context == before)
}

/// One of the reads that the range serves asks for `after` lines below.
pub open spec fn asks_after(asked: Seq<PlannedRange>, range: PlannedRange, after: usize) -> bool {
    exists|k: int|
        0 <= k < asked.len() && serves(range, #[trigger] asked[k]) && (asked[k].read matches
            PlannedRead::FullLines { after_context, .. } && after_context == after)
}

/// Byte `p` is asked for, or at most `gap` bytes past the end of a read.
pub open spec fn is_asked(asked: Seq<PlannedRange>, gap: u64, p: int) -> bool {
    exists|k: int|
        0 <= k < asked.len() && (#[trigger] asked[k]).bytes.start <= p < asked[k].bytes.end + gap
}

/// A read begins where the range does.
pub open spec fn begins_read(asked: Seq<PlannedRange>, range: PlannedRange) -> bool {
    exists|k: int| 0 <= k < asked.len() && (#[trigger] asked[k]).bytes.start == range.bytes.start
}

/// A read ends where the range does.
pub open spec fn ends_read(asked: Seq<PlannedRange>, range: PlannedRange) -> bool {
    exists|k: int| 0 <= k < asked.len() && (#[trigger] asked[k]).bytes.end == range.bytes.end
}

/// A range of the plan reads no more than was asked for: no byte further than the gap behind a read,
/// full lines only where a read asks for them, and no more context than one of them asks for.
#[verifier::opaque]
pub open spec fn no_excess(asked: Seq<PlannedRange>, gap: u64, range: PlannedRange) -> bool {
    &&& begins_read(asked, range)
    &&& ends_read(asked, range)
    &&& forall|p: int|
        range.bytes.start <= p < range.bytes.end ==> #[trigger] is_asked(asked, gap, p)
    &&& range.read matches PlannedRead::FullLines { before_context, after_context } ==> asks_before(
        asked,
        range,
        before_context,
    ) && asks_after(asked, range, after_context)
}

proof fn lemma_asked_more(
    asked: Seq<PlannedRange>,
    more: Seq<PlannedRange>,
    gap: u64,
    range: PlannedRange,
)
    requires
        no_excess(asked, gap, range),
        forall|k: int| 0 <= k < asked.len() ==> more.contains(#[trigger] asked[k]),
    ensures
        no_excess(more, gap, range),
{
    reveal(no_excess);
    let b = choose|k: int|
        0 <= k < asked.len() && (#[trigger] asked[k]).bytes.start == range.bytes.start;
    assert(more.contains(asked[b]));
    let e = choose|k: int| 0 <= k < asked.len() && (#[trigger] asked[k]).bytes.end == range.bytes.end;
    assert(more.contains(asked[e]));
    assert forall|p: int| range.bytes.start <= p < range.bytes.end implies #[trigger] is_asked(
        more,
        gap,
        p,
    ) by {
        assert(is_asked(asked, gap, p));
        let k = choose|k: int|
            0 <= k < asked.len() && (#[trigger] asked[k]).bytes.start <= p < asked[k].bytes.end
                + gap;
        assert(more.contains(asked[k]));
    }
    if let PlannedRead::FullLines { before_context, after_context } = range.read {
        let k = choose|k: int|
            0 <= k < asked.len() && serves(range, #[trigger] asked[k]) && (asked[k].read matches
                PlannedRead::FullLines { before_context: c, .. } && c == before_context);
        assert(more.contains(asked[k]));
        let k = choose|k: int|
            0 <= k < asked.len() && serves(range, #[trigger] asked[k]) && (asked[k].read matches
                PlannedRead::FullLines { after_context: c, .. } && c == after_context);
        assert(more.contains(asked[k]));
    }
}

proof fn lemma_joined_reads(
    asked: Seq<PlannedRange>,
    gap: u64,
    last: PlannedRange,
    range: PlannedRange,
    joined: PlannedRange,
)
    requires
        no_excess(asked, gap, last),
        asked.contains(range),
        forall|k: int| 0 <= k < asked.len() ==> (#[trigger] asked[k]).bytes.start <= asked[k].bytes.end,
        last.bytes.start <= range.bytes.start <= last.bytes.end + gap,
        joined.bytes.start == last.bytes.start,
        joined.bytes.end == if last.bytes.end > range.bytes.end {
            last.bytes.end
        } else {
            range.bytes.end
        },
        joined.read == joint_read(last.read, range.read),
    ensures
        no_excess(asked, gap, joined),
        serves(joined, range),
        forall|read: PlannedRange| #[trigger] serves(last, read) ==> serves(joined, read),
{
    reveal(no_excess);
    let n = choose|n: int| 0 <= n < asked.len() && asked[n] == range;
    let b = choose|k: int|
        0 <= k < asked.len() && (#[trigger] asked[k]).bytes.start == last.bytes.start;
    assert(asked[b].bytes.start == joined.bytes.start);
    let e = choose|k: int| 0 <= k < asked.len() && (#[trigger] asked[k]).bytes.end == last.bytes.end;
    assert(asked[e].bytes.end == joined.bytes.end || asked[n].bytes.end == joined.bytes.end);
    assert forall|p: int| joined.bytes.start <= p < joined.bytes.end implies #[trigger] is_asked(
        asked,
        gap,
        p,
    ) by {
        if p < last.bytes.end {
            assert(is_asked(asked, gap, p));
        } else if p < range.bytes.start {
            assert(asked[e].bytes.start <= p < asked[e].bytes.end + gap);
        } else {
            assert(asked[n].bytes.start <= p < asked[n].bytes.end + gap);
        }
    }
    if let PlannedRead::FullLines { before_context, after_context } = last.read {
        let k = choose|k: int|
            0 <= k < asked.len() && serves(last, #[trigger] asked[k]) && (asked[k].read matches
                PlannedRead::FullLines { before_context: c, .. } && c == before_context);
        assert(serves(joined, asked[k]));
        let k = choose|k: int|
            0 <= k < asked.len() && serves(last, #[trigger] asked[k]) && (asked[k].read matches
                PlannedRead::FullLines { after_context: c, .. } && c == after_context);
        assert(serves(joined, asked[k]));
    }
    assert(serves(joined, asked[n]));
}

proof fn lemma_own_read(asked: Seq<PlannedRange>, gap: u64, n: int)
    requires
        0 <= n < asked.len(),
    ensures
        no_excess(asked, gap, asked[n]),
        serves(asked[n], asked[n]),
{
    reveal(no_excess);
    let range = asked[n];
    assert(serves(range, asked[n]));
    assert(asked[n].bytes.start == range.bytes.start);
    assert forall|p: int| range.bytes.start <= p < range.bytes.end implies #[trigger] is_asked(
        asked,
        gap,
        p,
    ) by {
        assert(asked[n].bytes.start <= p < asked[n].bytes.end + gap);
    }
}

#[verifier::spinoff_prover]
proof fn lemma_steps_serve(ranges: Seq<PlannedRange>, gap: u64)
    requires
        crate::sorting::in_key_order(ranges),
        forall|k: int| 0 <= k < ranges.len() ==> (#[trigger] ranges[k]).bytes.start <= ranges[k].bytes.end,
    ensures
        forall|k: int|
            0 <= k < ranges.len() ==> is_served(plan_steps(ranges, gap), #[trigger] ranges[k]),
        forall|a: int|
            0 <= a < plan_steps(ranges, gap).len() ==> no_excess(
                ranges,
                gap,
                #[trigger] plan_steps(ranges, gap)[a],
            ),
    decreases ranges.len(),
{
    if ranges.len() > 0 {
        let rest = ranges.drop_last();
        let range = ranges.last();
        let n = rest.len() as int;
        assert(crate::sorting::in_key_order(rest)) by {
            assert forall|i: int, j: int| 0 <= i < j < rest.len() implies !crate::sorting::key_less(
                (#[trigger] rest[j]).key(),
                (#[trigger] rest[i]).key(),
            ) by {
                assert(rest[i] == ranges[i] && rest[j] == ranges[j]);
            }
        }
        assert forall|k: int| 0 <= k < rest.len() implies (#[trigger] rest[k]).bytes.start
            <= rest[k].bytes.end && ranges.contains(rest[k]) by {
            assert(rest[k] == ranges[k]);
        }
        lemma_steps_serve(rest, gap);
        lemma_steps_apart(rest, gap);
        let front = plan_steps(rest, gap);
        let all = plan_steps(ranges, gap);
        if n > 0 {
            assert(rest.last() == ranges[n - 1]);
            assert(!crate::sorting::key_less(ranges[n].key(), ranges[n - 1].key()));
        }
        assert(range == ranges[n]);
        assert(all == plan_step(front, range, gap));
        assert forall|a: int| 0 <= a < front.len() implies no_excess(
            ranges,
            gap,
            #[trigger] front[a],
        ) by {
            lemma_asked_more(rest, ranges, gap, front[a]);
        }
        let joined = front.len() > 0 && near(front.last(), range, gap);
        if joined {
            let m = front.len() - 1;
            assert(ranges.contains(range));
            lemma_joined_reads(ranges, gap, front[m], range, all[m]);
            assert forall|a: int| 0 <= a < all.len() implies no_excess(
                ranges,
                gap,
                #[trigger] all[a],
            ) by {
                if a < m {
                    assert(all[a] == front[a]);
                }
            }
            assert forall|k: int| 0 <= k < ranges.len() implies is_served(
                all,
                #[trigger] ranges[k],
            ) by {
                if k < n {
                    assert(is_served(front, rest[k]));
                    let a = choose|a: int| 0 <= a < front.len() && serves(#[trigger] front[a], rest[k]);
                    if a < m {
                        assert(all[a] == front[a]);
                    }
                    assert(serves(all[a], ranges[k]));
                } else {
                    assert(serves(all[m], ranges[k]));
                }
            }
        } else {
            let m = front.len() as int;
            assert(all[m] == range);
            lemma_own_read(ranges, gap, n);
            assert forall|a: int| 0 <= a < all.len() implies no_excess(
                ranges,
                gap,
                #[trigger] all[a],
            ) by {
                if a < m {
                    assert(all[a] == front[a]);
                }
            }
            assert forall|k: int| 0 <= k < ranges.len() implies is_served(
                all,
                #[trigger] ranges[k],
            ) by {
                if k < n {
                    assert(is_served(front, rest[k]));
                    let a = choose|a: int| 0 <= a < front.len() && serves(#[trigger] front[a], rest[k]);
                    assert(all[a] == front[a]);
                } else {
                    assert(serves(all[m], ranges[k]));
                }
            }
        }
    }
}

/// Merged ranges serve every read, bytes and lines of context alike, and read no more than the reads
/// ask for and the gaps between them.
pub proof fn merged_ranges_serve_their_reads(ranges: Seq<PlannedRange>, gap: u64, k: int, a: int)
    requires
        forall|k: int| 0 <= k < ranges.len() ==> (#[trigger] ranges[k]).bytes.start <= ranges[k].bytes.end,
    ensures
        0 <= k < ranges.len() ==> is_served(merged_plan(ranges, gap), ranges[k]),
        0 <= a < merged_plan(ranges, gap).len() ==> no_excess(
            ranges,
            gap,
            merged_plan(ranges, gap)[a],
        ),
{
    let sorted = crate::sorting::sort_items(ranges);
    crate::sorting::sorting_orders_and_keeps(ranges);
    assert forall|j: int| 0 <= j < sorted.len() implies (#[trigger] sorted[j]).bytes.start
        <= sorted[j].bytes.end && ranges.contains(sorted[j]) by {
        assert(sorted.contains(sorted[j]));
        let i = choose|i: int| 0 <= i < ranges.len() && ranges[i] == sorted[j];
        assert(ranges[i].bytes.start <= ranges[i].bytes.end);
    }
    lemma_steps_serve(sorted, gap);
    if 0 <= k < ranges.len() {
        assert(ranges.contains(ranges[k]));
        assert(sorted.contains(ranges[k]));
        let j = choose|j: int| 0 <= j < sorted.len() && sorted[j] == ranges[k];
        assert(is_served(merged_plan(ranges, gap), sorted[j]));
    }
    if 0 <= a < merged_plan(ranges, gap).len() {
        lemma_asked_more(sorted, ranges, gap, merged_plan(ranges, gap)[a]);
    }
}

/// What is read for a candidate range: for a regional one every byte of the document that a match of
/// `span` bytes through it may hold and no other, for full lines its bytes and the context asked for.
/// A range that is empty or leaves the document, or a span of nothing, is refused.
pub proof fn candidates_are_read_with_their_reach(range: PackRange, size: u64, p: int)
    ensures
        match range {
            PackRange::Regional { bytes, span } => {
                &&& planned(range, size) is Ok <==> bytes.start < bytes.end <= size && span > 0
                &&& planned(range, size) matches Ok(plan) ==> plan.read is Regional && (
                plan.bytes.start <= p < plan.bytes.end <==> 0 <= p < size && bytes.start < p + span
                    && p < bytes.end + span - 1)
            },
            PackRange::FullLines { bytes, before_context, after_context } => {
                &&& planned(range, size) is Ok <==> bytes.start < bytes.end <= size
                &&& planned(range, size) matches Ok(plan) ==> plan.bytes == bytes && plan.read == (
                PlannedRead::FullLines { before_context, after_context })
            },
        },
{
}

proof fn lemma_planned_each(ranges: Seq<PackRange>, size: u64)
    ensures
        planned_all(ranges, size) matches Ok(list) ==> list.len() == ranges.len() && forall|k: int|
            0 <= k < ranges.len() ==> planned(#[trigger] ranges[k], size) == Ok::<
                PlannedRange,
                IndexError,
            >(list[k]),
        planned_all(ranges, size) is Ok <==> forall|k: int|
            0 <= k < ranges.len() ==> planned(#[trigger] ranges[k], size) is Ok,
    decreases ranges.len(),
{
    if ranges.len() > 0 {
        let front = ranges.drop_last();
        let n = ranges.len() - 1;
        lemma_planned_each(front, size);
        assert(ranges[n] == ranges.last());
        assert forall|k: int| 0 <= k < n implies planned(#[trigger] ranges[k], size) == planned(
            front[k],
            size,
        ) by {}
        if planned_all(front, size) is Err {
            let k = choose|k: int| 0 <= k < front.len() && planned(#[trigger] front[k], size) is Err;
            assert(planned(ranges[k], size) is Err);
        }
    }
}

/// The bytes that some range holds.
pub open spec fn bytes_held(ranges: Seq<PlannedRange>) -> Set<int> {
    Set::new(|p: int| plan_covers(ranges, p))
}

proof fn lemma_covered_is_held(ranges: Seq<PlannedRange>, size: u64)
    requires
        spread(ranges, size),
    ensures
        bytes_held(ranges).finite(),
        bytes_held(ranges).len() == covered(ranges),
    decreases ranges.len(),
{
    if ranges.len() == 0 {
        assert(bytes_held(ranges) =~= Set::<int>::empty());
    } else {
        let front = ranges.drop_last();
        let n = ranges.len() - 1;
        let last = ranges[n].bytes;
        assert(last.start < last.end);
        assert forall|i: int| 0 <= i < front.len() implies (#[trigger] front[i]).bytes.start
            < front[i].bytes.end && front[i].bytes.end <= size by {
            assert(front[i] == ranges[i]);
        }
        assert forall|i: int, j: int| 0 <= i < j < front.len() implies (#[trigger] front[i]).bytes.end
            <= (#[trigger] front[j]).bytes.start by {
            assert(front[i] == ranges[i] && front[j] == ranges[j]);
        }
        lemma_covered_is_held(front, size);
        let own = vstd::set_lib::set_int_range(last.start as int, last.end as int);
        vstd::set_lib::lemma_int_range(last.start as int, last.end as int);
        assert(bytes_held(ranges) =~= bytes_held(front).union(own)) by {
            assert forall|p: int| bytes_held(ranges).contains(p) <==> bytes_held(front).union(
                own,
            ).contains(p) by {
                if plan_covers(ranges, p) {
                    let r = choose|r: int|
                        0 <= r < ranges.len() && (#[trigger] ranges[r]).bytes.start <= p
                            < ranges[r].bytes.end;
                    if r < n {
                        assert(front[r] == ranges[r]);
                    }
                }
                if plan_covers(front, p) {
                    let r = choose|r: int|
                        0 <= r < front.len() && (#[trigger] front[r]).bytes.start <= p
                            < front[r].bytes.end;
                    assert(ranges[r] == front[r]);
                }
                if own.contains(p) {
                    assert(ranges[n].bytes.start <= p < ranges[n].bytes.end);
                }
            }
        }
        assert(bytes_held(front).disjoint(own)) by {
            assert forall|p: int| bytes_held(front).contains(p) implies !own.contains(p) by {
                let r = choose|r: int|
                    0 <= r < front.len() && (#[trigger] front[r]).bytes.start <= p
                        < front[r].bytes.end;
                assert(ranges[r].bytes.end <= ranges[n].bytes.start);
            }
        }
        vstd::set_lib::lemma_set_disjoint_lens(bytes_held(front), own);
    }
}

/// A document is read in part where that takes at most as many reads as are allowed, and at most half
/// of its bytes; otherwise whole. The partial reads are the merged reads of the candidate ranges.
pub proof fn documents_are_read_in_part_where_that_saves_half(ranges: Seq<PackRange>, size: u64)
    requires
        forall|k: int| 0 <= k < ranges.len() ==> planned(#[trigger] ranges[k], size) is Ok,
    ensures
        ({
            let asked = ranges.map_values(|range: PackRange| planned(range, size)->Ok_0);
            let merged = merged_plan(asked, REGION_GAP_BYTES);
            &&& bytes_held(merged).finite()
            &&& region_plan(ranges, size) == Ok::<Option<Seq<PlannedRange>>, IndexError>(
                if merged.len() <= REGION_MAX_RANGES && 2 * bytes_held(merged).len() <= size {
                    Some(merged)
                } else {
                    None
                },
            )
        }),
{
    let asked = ranges.map_values(|range: PackRange| planned(range, size)->Ok_0);
    lemma_planned_each(ranges, size);
    assert(planned_all(ranges, size)->Ok_0 =~= asked);
    lemma_planned_within(ranges, size);
    let sorted = crate::sorting::sort_items(asked);
    crate::sorting::sorting_orders_and_keeps(asked);
    assert(plan_within(sorted, size)) by {
        assert forall|k: int| 0 <= k < sorted.len() implies (#[trigger] sorted[k]).bytes.start
            < sorted[k].bytes.end && sorted[k].bytes.end <= size by {
            assert(sorted.contains(sorted[k]));
            let m = choose|m: int| 0 <= m < asked.len() && asked[m] == sorted[k];
            assert(asked[m].bytes.start < asked[m].bytes.end);
        }
    }
    lemma_plan_steps_spread(sorted, REGION_GAP_BYTES, size);
    lemma_covered_is_held(merged_plan(asked, REGION_GAP_BYTES), size);
}

} // verus!
