//! Building a segment: the chunks in which objects are fetched, and the tables that ingesting
//! them fills.

use vstd::prelude::*;

use crate::batches::greedy_batches;
use crate::error::IndexError;
use crate::format::DocEntry;
use crate::format::SegmentTables;
use crate::format::SourceEncoding;
use crate::format::SourceEntry;
use crate::local::SourceObject;

verus! {

/// How many objects are fetched at a time.
pub const BUILD_FETCH_CHUNK: usize = 1280;

/// How many encoded bytes are fetched at a time.
pub const BUILD_FETCH_BYTES: u64 = 67108864;

pub open spec fn encoded_sizes(sources: Seq<SourceObject>) -> Seq<u64> {
    sources.map_values(|source: SourceObject| source.encoded_size)
}

pub open spec fn none_alone(n: nat) -> Seq<bool> {
    Seq::new(n, |i: int| false)
}

/// The chunks in which objects are fetched, bounded by count and by bytes; an object over the
/// byte bound is a chunk of its own.
pub fn build_chunks(sources: &[SourceObject]) -> (chunks: Vec<(usize, usize)>)
    ensures
        crate::batches::greedy(
            chunks@,
            sources@.len() as int,
            encoded_sizes(sources@),
            none_alone(sources@.len()),
            BUILD_FETCH_CHUNK as nat,
            BUILD_FETCH_BYTES,
        ),
{
    let mut sizes: Vec<u64> = Vec::new();
    let mut alone: Vec<bool> = Vec::new();
    let mut i: usize = 0;
    while i < sources.len()
        invariant
            i <= sources.len(),
            sizes@.len() == i,
            alone@.len() == i,
            forall|k: int| 0 <= k < i ==> #[trigger] sizes@[k] == sources@[k].encoded_size,
            forall|k: int| 0 <= k < i ==> !(#[trigger] alone@[k]),
        decreases sources.len() - i,
    {
        sizes.push(sources[i].encoded_size);
        alone.push(false);
        i = i + 1;
    }
    assert(sizes@ =~= encoded_sizes(sources@));
    assert(alone@ =~= none_alone(sources@.len()));
    greedy_batches(sizes.as_slice(), alone.as_slice(), BUILD_FETCH_CHUNK, BUILD_FETCH_BYTES)
}

/// Whether a chunk is small enough to be in flight beside another.
pub fn prefetchable(sources: &[SourceObject], chunk: (usize, usize)) -> (small: bool)
    requires
        chunk.0 <= chunk.1 <= sources@.len(),
    ensures
        small == (crate::batches::weight(
            encoded_sizes(sources@),
            chunk.0 as int,
            chunk.1 as int,
        ) <= BUILD_FETCH_BYTES),
{
    let ghost sizes = encoded_sizes(sources@);
    let mut total: u64 = 0;
    let mut i: usize = chunk.0;
    while i < chunk.1
        invariant
            chunk.0 <= i <= chunk.1 <= sources@.len(),
            sizes == encoded_sizes(sources@),
            total == crate::batches::weight(sizes, chunk.0 as int, i as int),
            total <= BUILD_FETCH_BYTES,
        decreases chunk.1 - i,
    {
        let size: u64 = sources[i].encoded_size;
        assert(sizes[i as int] == size);
        if size > BUILD_FETCH_BYTES - total {
            proof {
                lemma_weight_grows(sizes, chunk.0 as int, i + 1, chunk.1 as int);
            }
            return false;
        }
        total = total + size;
        i = i + 1;
    }
    true
}

proof fn lemma_weight_grows(weights: Seq<u64>, start: int, mid: int, end: int)
    requires
        start <= mid <= end,
    ensures
        crate::batches::weight(weights, start, mid) <= crate::batches::weight(weights, start, end),
    decreases end - mid,
{
    if mid < end {
        lemma_weight_grows(weights, start, mid, end - 1);
    }
}

/// Object `at` is among the first `n` that a fetch brought.
pub open spec fn brought(fetched: Seq<usize>, n: int, at: int) -> bool {
    exists|k: int| 0 <= k < n && #[trigger] fetched[k] == at
}

/// What is wrong with object `k` that a fetch of `start..end` brought.
pub open spec fn fetch_error(
    fetched: Seq<usize>,
    start: usize,
    end: usize,
    k: int,
) -> Option<IndexError> {
    if !(start <= fetched[k] < end) {
        Some(IndexError::FetchOutOfRange { at: fetched[k] })
    } else if brought(fetched, k, fetched[k] as int) {
        Some(IndexError::FetchTwice { at: fetched[k] })
    } else {
        None
    }
}

/// Where each object of a chunk is among those that a fetch brought, if it was brought at all.
pub open spec fn slots_of(
    slots: Seq<Option<usize>>,
    fetched: Seq<usize>,
    start: usize,
    n: int,
) -> bool {
    forall|p: int|
        0 <= p < slots.len() ==> match #[trigger] slots[p] {
            Some(k) => k < n && fetched[k as int] == start + p,
            None => !brought(fetched, n, start + p),
        }
}

/// Where each object of a chunk is among those that a fetch brought. An object may be missing; one
/// that was not asked for, or that came twice, is an error.
pub fn place_fetched(chunk: (usize, usize), fetched: &[usize]) -> (slots: Result<
    Vec<Option<usize>>,
    IndexError,
>)
    requires
        chunk.0 <= chunk.1,
    ensures
        match slots {
            Ok(slots) => slots@.len() == chunk.1 - chunk.0 && slots_of(
                slots@,
                fetched@,
                chunk.0,
                fetched@.len() as int,
            ) && forall|k: int|
                0 <= k < fetched@.len() ==> #[trigger] fetch_error(
                    fetched@,
                    chunk.0,
                    chunk.1,
                    k,
                ) is None,
            Err(e) => exists|k: int|
                0 <= k < fetched@.len() && #[trigger] fetch_error(fetched@, chunk.0, chunk.1, k)
                    == Some(e) && forall|j: int|
                    0 <= j < k ==> #[trigger] fetch_error(fetched@, chunk.0, chunk.1, j) is None,
        },
{
    let (start, end): (usize, usize) = chunk;
    let mut slots: Vec<Option<usize>> = Vec::new();
    let mut p: usize = start;
    while p < end
        invariant
            start <= p <= end,
            slots@.len() == p - start,
            forall|q: int| 0 <= q < slots@.len() ==> (#[trigger] slots@[q]) is None,
        decreases end - p,
    {
        slots.push(None);
        p = p + 1;
    }
    let mut k: usize = 0;
    while k < fetched.len()
        invariant
            k <= fetched.len(),
            start == chunk.0,
            end == chunk.1,
            start <= end,
            slots@.len() == end - start,
            slots_of(slots@, fetched@, start, k as int),
            forall|j: int|
                0 <= j < k ==> #[trigger] fetch_error(fetched@, start, end, j) is None,
        decreases fetched.len() - k,
    {
        let at: usize = fetched[k];
        if at < start || at >= end {
            assert(fetch_error(fetched@, start, end, k as int) is Some);
            return Err(IndexError::FetchOutOfRange { at });
        }
        let position: usize = at - start;
        let ghost before = slots@;
        if let Some(held) = slots[position] {
            proof {
                assert(before[position as int] == Some(held));
                assert(fetched@[held as int] == at);
                assert(brought(fetched@, k as int, at as int));
                assert(fetch_error(fetched@, start, end, k as int) is Some);
            }
            return Err(IndexError::FetchTwice { at });
        }
        slots.set(position, Some(k));
        proof {
            assert(before[position as int] is None);
            assert(fetch_error(fetched@, start, end, k as int) is None);
            assert forall|q: int| 0 <= q < slots@.len() implies match #[trigger] slots@[q] {
                Some(j) => j < k + 1 && fetched@[j as int] == start + q,
                None => !brought(fetched@, k + 1, start + q),
            } by {
                if q != position {
                    assert(slots@[q] == before[q]);
                    if brought(fetched@, k + 1, start + q) {
                        let j = choose|j: int|
                            0 <= j < k + 1 && #[trigger] fetched@[j] == start + q;
                        assert(j != k);
                        assert(brought(fetched@, k as int, start + q)) by {
                            assert(fetched@[j] == start + q);
                        }
                    }
                }
            }
        }
        k = k + 1;
    }
    Ok(slots)
}

/// How many documents the next object may have; an error where the segment is full.
pub fn document_limit(cap: Option<usize>, held: usize) -> (limit: Result<Option<usize>, IndexError>)
    ensures
        match limit {
            Ok(None) => cap is None,
            Ok(Some(limit)) => cap is Some && held < cap->0 && limit == cap->0 - held,
            Err(e) => cap is Some && cap->0 <= held && e == IndexError::DocumentCap,
        },
{
    match cap {
        None => Ok(None),
        Some(cap) => if cap <= held {
            Err(IndexError::DocumentCap)
        } else {
            Ok(Some(cap - held))
        },
    }
}

/// What became of an object.
#[derive(Debug)]
pub enum SourceOutcome {
    /// It was decoded into documents, in key order.
    Decoded { encoding: SourceEncoding, documents: Vec<DocEntry> },
    /// It could not be decoded.
    Failed,
    /// It could not be had; it may be there the next time.
    Missing,
}

/// The documents that an object brings.
pub open spec fn outcome_documents(outcome: SourceOutcome) -> Seq<DocEntry> {
    match outcome {
        SourceOutcome::Decoded { documents, .. } => documents@,
        _ => Seq::empty(),
    }
}

/// The tables' entry of an object.
pub open spec fn source_entry_is(
    entry: SourceEntry,
    source: SourceObject,
    outcome: SourceOutcome,
    first_doc: int,
) -> bool {
    &&& entry.key@ == source.key@
    &&& entry.version@ == source.version@
    &&& entry.encoded_size == source.encoded_size
    &&& entry.encoding == match outcome {
        SourceOutcome::Decoded { encoding, .. } => encoding,
        _ => SourceEncoding::Raw,
    }
    &&& entry.first_doc == first_doc
    &&& entry.doc_count == outcome_documents(outcome).len()
    &&& entry.failed == !(outcome is Decoded)
    &&& entry.retry == (outcome is Missing)
}

/// What keeps an object out of a segment that holds `sources` objects and `held` documents.
pub open spec fn ingest_error(
    sources: int,
    held: int,
    more: int,
    cap: Option<usize>,
) -> Option<IndexError> {
    if sources > u32::MAX || held > u32::MAX {
        Some(IndexError::SegmentTooLarge)
    } else if cap is Some && held + more > cap->0 {
        Some(IndexError::DocumentCap)
    } else if held + more > u32::MAX {
        Some(IndexError::SegmentTooLarge)
    } else {
        None
    }
}

/// Enter an object and its documents into a segment's tables.
pub fn ingest_source(
    tables: &mut SegmentTables,
    source: &SourceObject,
    outcome: SourceOutcome,
    cap: Option<usize>,
) -> (ingested: Result<(), IndexError>)
    ensures
        final(tables).blocks@ == old(tables).blocks@,
        ({
            let more = outcome_documents(outcome);
            let error = ingest_error(
                old(tables).sources@.len() as int,
                old(tables).documents@.len() as int,
                more.len() as int,
                cap,
            );
            match ingested {
                Ok(_) => {
                    &&& error is None
                    &&& final(tables).documents@ == old(tables).documents@ + more
                    &&& final(tables).sources@.len() == old(tables).sources@.len() + 1
                    &&& final(tables).sources@.drop_last() == old(tables).sources@
                    &&& source_entry_is(
                        final(tables).sources@.last(),
                        *source,
                        outcome,
                        old(tables).documents@.len() as int,
                    )
                },
                Err(e) => error == Some(e) && final(tables).documents@ == old(tables).documents@
                    && final(tables).sources@ == old(tables).sources@,
            }
        }),
{
    let ghost more = outcome_documents(outcome);
    let held: usize = tables.documents.len();
    if tables.sources.len() as u64 > u32::MAX as u64 || held as u64 > u32::MAX as u64 {
        return Err(IndexError::SegmentTooLarge);
    }
    let (encoding, failed, retry, mut documents): (SourceEncoding, bool, bool, Vec<DocEntry>) =
        match outcome {
        SourceOutcome::Decoded { encoding, documents } => (encoding, false, false, documents),
        SourceOutcome::Failed => (SourceEncoding::Raw, true, false, Vec::new()),
        SourceOutcome::Missing => (SourceEncoding::Raw, true, true, Vec::new()),
    };
    assert(documents@ =~= more);
    let count: usize = documents.len();
    if let Some(cap) = cap {
        if held > cap || count > cap - held {
            return Err(IndexError::DocumentCap);
        }
    }
    if count as u64 > u32::MAX as u64 - held as u64 {
        return Err(IndexError::SegmentTooLarge);
    }
    let ghost before = tables.documents@;
    let ghost old_sources = tables.sources@;
    tables.documents.append(&mut documents);
    assert(tables.documents@ =~= before + more);
    tables.sources.push(
        SourceEntry {
            key: source.key.clone(),
            version: source.version.clone(),
            encoded_size: source.encoded_size,
            encoding,
            first_doc: held as u32,
            doc_count: count as u32,
            failed,
            retry,
        },
    );
    assert(tables.sources@.drop_last() =~= old_sources);
    Ok(())
}

/// A table filled object by object stays in one piece: every object's documents follow those of
/// the object before it, and together they are all documents.
pub proof fn ingested_sources_are_contiguous(
    before: SegmentTables,
    after: SegmentTables,
    more: nat,
)
    requires
        crate::format::docs_before(before.sources@, before.sources@.len())
            == before.documents@.len(),
        after.sources@.len() == before.sources@.len() + 1,
        after.sources@.drop_last() == before.sources@,
        after.sources@.last().first_doc == before.documents@.len(),
        after.sources@.last().doc_count == more,
        after.documents@.len() == before.documents@.len() + more,
    ensures
        crate::format::docs_before(after.sources@, after.sources@.len()) == after.documents@.len(),
        after.sources@.last().first_doc == crate::format::docs_before(
            after.sources@,
            before.sources@.len(),
        ),
{
    lemma_docs_before_prefix(before.sources@, after.sources@, before.sources@.len());
}

proof fn lemma_docs_before_prefix(short: Seq<SourceEntry>, long: Seq<SourceEntry>, n: nat)
    requires
        n <= short.len(),
        long.len() == short.len() + 1,
        long.drop_last() == short,
    ensures
        crate::format::docs_before(long, n) == crate::format::docs_before(short, n),
    decreases n,
{
    if n > 0 {
        lemma_docs_before_prefix(short, long, (n - 1) as nat);
        assert(long.drop_last()[n - 1] == long[n - 1]);
    }
}

/// The documents that an object brings are its own, in key order, and new to the segment.
pub open spec fn documents_fit(
    held: Seq<DocEntry>,
    more: Seq<DocEntry>,
    source: Seq<char>,
    source_id: nat,
) -> bool {
    &&& crate::format::docs_sorted(more, 0, more.len() as int)
    &&& forall|d: int|
        0 <= d < more.len() ==> {
            let document = #[trigger] more[d];
            &&& document.source_id == source_id
            &&& match document.member_path {
                Some(member) => member@.len() > 0 && document.display_key@
                    == crate::format::member_key(source, member@),
                None => document.display_key@ == source,
            }
            &&& !crate::format::key_seen(held + more, held.len() + d)
        }
}

/// Entering an object behind those of a valid segment, with documents that fit it, keeps the
/// segment's sources and documents valid.
pub proof fn ingested_tables_validate(
    before: SegmentTables,
    after: SegmentTables,
    source: SourceObject,
    outcome: SourceOutcome,
)
    requires
        crate::format::sources_error(before, 0) is None,
        after.documents@ == before.documents@ + outcome_documents(outcome),
        after.sources@.len() == before.sources@.len() + 1,
        after.sources@.drop_last() == before.sources@,
        source_entry_is(
            after.sources@.last(),
            source,
            outcome,
            before.documents@.len() as int,
        ),
        before.sources@.len() > 0 ==> crate::text::text_before(
            before.sources@.last().key@,
            source.key@,
        ),
        documents_fit(
            before.documents@,
            outcome_documents(outcome),
            source.key@,
            before.sources@.len(),
        ),
    ensures
        crate::format::sources_error(after, 0) is None,
{
    lemma_sources_stay_valid(before, after, source, outcome, 0);
}

proof fn lemma_sources_stay_valid(
    before: SegmentTables,
    after: SegmentTables,
    source: SourceObject,
    outcome: SourceOutcome,
    i: int,
)
    requires
        0 <= i <= before.sources@.len(),
        crate::format::sources_error(before, i) is None,
        after.documents@ == before.documents@ + outcome_documents(outcome),
        after.sources@.len() == before.sources@.len() + 1,
        after.sources@.drop_last() == before.sources@,
        source_entry_is(
            after.sources@.last(),
            source,
            outcome,
            before.documents@.len() as int,
        ),
        before.sources@.len() > 0 ==> crate::text::text_before(
            before.sources@.last().key@,
            source.key@,
        ),
        documents_fit(
            before.documents@,
            outcome_documents(outcome),
            source.key@,
            before.sources@.len(),
        ),
    ensures
        crate::format::sources_error(after, i) is None,
    decreases before.sources@.len() - i,
{
    let n = before.sources@.len() as int;
    if i < n {
        lemma_sources_stay_valid(before, after, source, outcome, i + 1);
        assert(before.documents@ =~= after.documents@.take(before.documents@.len() as int));
        lemma_source_stays_valid(before, after, i);
    } else {
        lemma_docs_before_prefix(before.sources@, after.sources@, n as nat);
        lemma_source_valid(before, after, source, outcome);
        assert(crate::format::docs_before(after.sources@, (n + 1) as nat)
            == after.documents@.len());
        assert(crate::format::sources_error(after, n + 1) is None);
    }
}

proof fn lemma_source_stays_valid(before: SegmentTables, after: SegmentTables, i: int)
    requires
        0 <= i < before.sources@.len(),
        crate::format::source_error(before, i) is None,
        after.sources@.len() == before.sources@.len() + 1,
        after.sources@.drop_last() == before.sources@,
        before.documents@.len() <= after.documents@.len(),
        before.documents@ == after.documents@.take(before.documents@.len() as int),
    ensures
        crate::format::source_error(after, i) is None,
{
    lemma_docs_before_prefix(before.sources@, after.sources@, i as nat);
    assert(after.sources@.drop_last()[i] == after.sources@[i]);
    if i > 0 {
        assert(after.sources@.drop_last()[i - 1] == after.sources@[i - 1]);
    }
    let entry = before.sources@[i];
    let start = entry.first_doc as int;
    let end = start + entry.doc_count;
    lemma_docs_stay_valid(before, after, i, start, end);
    assert(crate::format::docs_sorted(after.documents@, start, end)) by {
        assert forall|d: int| start <= d < end - 1 implies crate::text::text_before(
            (#[trigger] after.documents@[d]).display_key@,
            after.documents@[d + 1].display_key@,
        ) by {
            assert(after.documents@[d] == before.documents@[d]);
            assert(after.documents@[d + 1] == before.documents@[d + 1]);
        }
    }
}

proof fn lemma_source_valid(
    before: SegmentTables,
    after: SegmentTables,
    source: SourceObject,
    outcome: SourceOutcome,
)
    requires
        crate::format::docs_before(after.sources@, before.sources@.len())
            == before.documents@.len(),
        after.documents@ == before.documents@ + outcome_documents(outcome),
        after.sources@.len() == before.sources@.len() + 1,
        after.sources@.drop_last() == before.sources@,
        source_entry_is(
            after.sources@.last(),
            source,
            outcome,
            before.documents@.len() as int,
        ),
        before.sources@.len() > 0 ==> crate::text::text_before(
            before.sources@.last().key@,
            source.key@,
        ),
        documents_fit(
            before.documents@,
            outcome_documents(outcome),
            source.key@,
            before.sources@.len(),
        ),
    ensures
        crate::format::source_error(after, before.sources@.len() as int) is None,
{
    let n = before.sources@.len() as int;
    let held = before.documents@.len() as int;
    let more = outcome_documents(outcome);
    if n > 0 {
        assert(after.sources@.drop_last()[n - 1] == after.sources@[n - 1]);
    }
    lemma_more_docs_valid(before, after, source, outcome, held);
    assert(crate::format::docs_sorted(after.documents@, held, held + more.len())) by {
        assert forall|d: int| held <= d < held + more.len() - 1 implies crate::text::text_before(
            (#[trigger] after.documents@[d]).display_key@,
            after.documents@[d + 1].display_key@,
        ) by {
            assert(after.documents@[d] == more[d - held]);
            assert(after.documents@[d + 1] == more[d - held + 1]);
        }
    }
}

proof fn lemma_docs_stay_valid(
    before: SegmentTables,
    after: SegmentTables,
    i: int,
    d: int,
    end: int,
)
    requires
        0 <= i < before.sources@.len() < after.sources@.len(),
        after.sources@[i] == before.sources@[i],
        0 <= d,
        end <= before.documents@.len() <= after.documents@.len(),
        before.documents@ == after.documents@.take(before.documents@.len() as int),
        crate::format::docs_error(before, i, d, end) is None,
    ensures
        crate::format::docs_error(after, i, d, end) is None,
    decreases end - d,
{
    if d < end {
        lemma_docs_stay_valid(before, after, i, d + 1, end);
        assert(before.documents@[d] == after.documents@[d]);
        if crate::format::key_seen(after.documents@, d) {
            let p = choose|p: int|
                0 <= p < d && after.documents@[p].display_key@ == after.documents@[d].display_key@;
            assert(before.documents@[p] == after.documents@[p]);
            assert(crate::format::key_seen(before.documents@, d));
        }
    }
}

proof fn lemma_more_docs_valid(
    before: SegmentTables,
    after: SegmentTables,
    source: SourceObject,
    outcome: SourceOutcome,
    d: int,
)
    requires
        before.documents@.len() <= d <= after.documents@.len(),
        after.documents@ == before.documents@ + outcome_documents(outcome),
        after.sources@.len() == before.sources@.len() + 1,
        after.sources@.last().key@ == source.key@,
        documents_fit(
            before.documents@,
            outcome_documents(outcome),
            source.key@,
            before.sources@.len(),
        ),
    ensures
        crate::format::docs_error(
            after,
            before.sources@.len() as int,
            d,
            after.documents@.len() as int,
        ) is None,
    decreases after.documents@.len() - d,
{
    if d < after.documents@.len() {
        lemma_more_docs_valid(before, after, source, outcome, d + 1);
        let more = outcome_documents(outcome);
        let k = d - before.documents@.len();
        assert(after.documents@[d] == more[k]);
        assert(!crate::format::key_seen(after.documents@, before.documents@.len() + k));
    }
}

/// A source that could not be had or not be decoded holds no documents and is marked as failed; only one
/// that could not be had is tried again. Any other keeps all its documents.
pub proof fn failed_sources_are_marked(
    entry: SourceEntry,
    source: SourceObject,
    outcome: SourceOutcome,
    first_doc: int,
)
    requires
        source_entry_is(entry, source, outcome, first_doc),
    ensures
        entry.key@ == source.key@ && entry.version@ == source.version@ && entry.encoded_size
            == source.encoded_size && entry.first_doc == first_doc,
        match outcome {
            SourceOutcome::Decoded { encoding, documents } => entry.doc_count == documents@.len()
                && entry.encoding == encoding && !entry.failed && !entry.retry,
            SourceOutcome::Failed => entry.doc_count == 0 && entry.failed && !entry.retry,
            SourceOutcome::Missing => entry.doc_count == 0 && entry.failed && entry.retry,
        },
{
}

} // verus!
