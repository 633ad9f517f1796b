//! Writing segments: splitting what is too large for one, and the metadata of what was written.

use vstd::prelude::*;

use crate::error::IndexError;
use crate::format::SegmentTables;
use crate::names::segment_blob;
use crate::pack_build::PackMeta;
use crate::segment::check_pack_lengths;
use crate::segment::SegmentMeta;
use crate::text::hex_encode;
use crate::text::text_eq;

verus! {

/// Objects still to be built into segments, as ranges of the listing that lie one after another;
/// the last range is the next to be built.
#[derive(Debug)]
pub struct SegmentSplits {
    pub pending: Vec<(usize, usize)>,
    pub done: usize,
    pub total: usize,
}

/// The ranges lie one after another from `start` to `end`, the last one first, none empty.
pub open spec fn ranges_tile(pending: Seq<(usize, usize)>, start: int, end: int) -> bool
    decreases pending.len(),
{
    if pending.len() == 0 {
        start == end
    } else {
        let next = pending.last();
        next.0 == start && next.0 < next.1 && ranges_tile(pending.drop_last(), next.1 as int, end)
    }
}

impl SegmentSplits {
    /// Everything before `done` is built, and the ranges cover the rest.
    pub open spec fn wf(&self) -> bool {
        ranges_tile(self.pending@, self.done as int, self.total as int)
    }

    /// All `total` objects, in one range.
    pub fn new(total: usize, doc_cap: u64) -> (splits: Result<SegmentSplits, IndexError>)
        ensures
            match splits {
                Ok(splits) => doc_cap > 0 && total > 0 && splits.wf() && splits.done == 0
                    && splits.total == total && splits.pending@ == seq![(0usize, total)],
                Err(e) => if doc_cap == 0 {
                    e == IndexError::SegmentCap
                } else {
                    total == 0 && e == IndexError::EmptySegment
                },
            },
    {
        if doc_cap == 0 {
            return Err(IndexError::SegmentCap);
        }
        if total == 0 {
            return Err(IndexError::EmptySegment);
        }
        let mut pending: Vec<(usize, usize)> = Vec::new();
        pending.push((0, total));
        let splits = SegmentSplits { pending, done: 0, total };
        assert(splits.pending@ =~= seq![(0usize, total)]);
        assert(splits.pending@.drop_last() =~= Seq::<(usize, usize)>::empty());
        assert(ranges_tile(splits.pending@.drop_last(), total as int, total as int));
        Ok(splits)
    }

    /// The next range to build; nothing once all are built.
    pub fn next(&self) -> (range: Option<(usize, usize)>)
        requires
            self.wf(),
        ensures
            match range {
                Some(range) => self.pending@.len() > 0 && range == self.pending@.last() && range.0
                    == self.done && range.0 < range.1 <= self.total,
                None => self.pending@.len() == 0 && self.done == self.total,
            },
    {
        let n: usize = self.pending.len();
        if n == 0 {
            return None;
        }
        proof {
            lemma_tile_bounds(self.pending@, self.done as int, self.total as int);
        }
        Some(self.pending[n - 1])
    }

    /// The next range was built.
    pub fn built(&mut self)
        requires
            old(self).wf(),
            old(self).pending@.len() > 0,
        ensures
            final(self).wf(),
            final(self).total == old(self).total,
            final(self).done == old(self).pending@.last().1,
            final(self).pending@ == old(self).pending@.drop_last(),
    {
        if let Some(range) = self.pending.pop() {
            self.done = range.1;
        }
    }

    /// The next range has more documents than a segment may: it is built as two halves. A single
    /// object cannot be split.
    pub fn exceeded(&mut self) -> (split: Result<(), IndexError>)
        requires
            old(self).wf(),
            old(self).pending@.len() > 0,
        ensures
            final(self).wf(),
            final(self).total == old(self).total,
            final(self).done == old(self).done,
            ({
                let range = old(self).pending@.last();
                let middle = (range.0 + (range.1 - range.0) / 2) as usize;
                match split {
                    Ok(_) => range.1 - range.0 > 1 && range.0 < middle < range.1
                        && final(self).pending@ == old(self).pending@.drop_last().push(
                        (middle, range.1),
                    ).push((range.0, middle)),
                    Err(e) => range.1 - range.0 == 1 && e == IndexError::SourceTooLarge
                        && final(self).pending@ == old(self).pending@,
                }
            }),
    {
        let ghost before = self.pending@;
        let n: usize = self.pending.len();
        let range: (usize, usize) = self.pending[n - 1];
        if range.1 - range.0 <= 1 {
            return Err(IndexError::SourceTooLarge);
        }
        let middle: usize = range.0 + (range.1 - range.0) / 2;
        self.pending.pop();
        self.pending.push((middle, range.1));
        self.pending.push((range.0, middle));
        proof {
            let rest = before.drop_last();
            let one = rest.push((middle, range.1));
            let two = one.push((range.0, middle));
            assert(one.drop_last() =~= rest);
            assert(two.drop_last() =~= one);
            assert(ranges_tile(one, middle as int, self.total as int));
            assert(self.pending@ =~= two);
        }
        Ok(())
    }
}

proof fn lemma_tile_bounds(pending: Seq<(usize, usize)>, start: int, end: int)
    requires
        ranges_tile(pending, start, end),
    ensures
        start <= end,
        pending.len() > 0 ==> pending.last().1 <= end,
    decreases pending.len(),
{
    if pending.len() > 0 {
        lemma_tile_bounds(pending.drop_last(), pending.last().1 as int, end);
    }
}

/// Every object is built into one segment, in order: what is built next starts where building
/// stopped, and nothing is left once there is no next range.
pub proof fn splits_cover_listings(splits: SegmentSplits)
    requires
        splits.wf(),
    ensures
        splits.pending@.len() > 0 ==> splits.pending@.last().0 == splits.done
            && splits.pending@.last().1 <= splits.total,
        splits.pending@.len() == 0 ==> splits.done == splits.total,
{
    lemma_tile_bounds(splits.pending@, splits.done as int, splits.total as int);
}

/// `getrandom::fill` on 32 bytes: random bytes, or nothing where the system has none to give.
/// Nothing is claimed of the bytes.
#[verifier::external_body]
fn random_bytes() -> (bytes: Option<[u8; 32]>) {
    let mut bytes = [0u8; 32];
    getrandom::fill(&mut bytes).ok()?;
    Some(bytes)
}

/// The segment ID that random bytes make.
pub fn seg_id_of(bytes: &[u8; 32]) -> (seg_id: String)
    ensures
        seg_id@ == crate::text::hex_text(bytes@),
        crate::text::sha256_text(seg_id@),
{
    let text = hex_encode(vstd::array::array_as_slice(bytes));
    proof {
        crate::text::hex_has_hash_form(bytes@);
    }
    text
}

/// A fresh segment ID. IDs are random, so an ID is known before the segment is written.
pub fn random_seg_id() -> (seg_id: Result<String, IndexError>)
    ensures
        match seg_id {
            Ok(seg_id) => crate::text::sha256_text(seg_id@),
            Err(e) => e == IndexError::SegmentIdSource,
        },
{
    match random_bytes() {
        Some(bytes) => Ok(seg_id_of(&bytes)),
        None => Err(IndexError::SegmentIdSource),
    }
}

/// A blob that was written.
#[derive(Debug)]
pub struct WrittenBlob {
    pub len: u64,
    pub hash: String,
}

/// What keeps a segment with these tables and packs from being written.
pub open spec fn publish_error(tables: SegmentTables, packs: Seq<PackMeta>) -> Option<IndexError> {
    if tables.sources@.len() == 0 {
        Some(IndexError::SegmentEmpty)
    } else if crate::format::table_error(tables) is Some {
        crate::format::table_error(tables)
    } else if crate::segment::pack_count(tables.blocks@) != packs.len() {
        Some(IndexError::SegmentPackCount)
    } else if crate::segment::packs_error(packs, tables.blocks@, 0) is Some {
        crate::segment::packs_error(packs, tables.blocks@, 0)
    } else if tables.documents@.len() > u32::MAX {
        Some(IndexError::SegmentTooLarge)
    } else {
        None
    }
}

/// Check what is about to be written as a segment.
pub fn check_publish(tables: &SegmentTables, packs: &[PackMeta]) -> (checked: Result<
    (),
    IndexError,
>)
    ensures
        match checked {
            Ok(_) => publish_error(*tables, packs@) is None,
            Err(e) => publish_error(*tables, packs@) == Some(e),
        },
{
    if tables.sources.len() == 0 {
        return Err(IndexError::SegmentEmpty);
    }
    if let Err(e) = tables.validate() {
        return Err(e);
    }
    let count: u64 = if tables.blocks.len() == 0 {
        0
    } else {
        tables.blocks[tables.blocks.len() - 1].pack as u64 + 1
    };
    if count != packs.len() as u64 {
        return Err(IndexError::SegmentPackCount);
    }
    if let Err(e) = check_pack_lengths(packs, tables.blocks.as_slice()) {
        return Err(e);
    }
    if tables.documents.len() as u64 > u32::MAX as u64 {
        return Err(IndexError::SegmentTooLarge);
    }
    Ok(())
}

/// The metadata of a segment that was written.
pub fn written_meta(
    seg_id: String,
    tables: &SegmentTables,
    packs: Vec<PackMeta>,
    terms: WrittenBlob,
    terms_tail_hash: String,
    postings: WrittenBlob,
    docs: WrittenBlob,
) -> (meta: SegmentMeta)
    requires
        publish_error(*tables, packs@) is None,
    ensures
        meta.seg_id@ == seg_id@,
        meta.doc_count == tables.documents@.len(),
        meta.terms_fst_len == terms.len,
        meta.terms_fst_hash@ == terms.hash@,
        meta.terms_tail_hash@ == terms_tail_hash@,
        meta.postings_len == postings.len,
        meta.postings_hash@ == postings.hash@,
        meta.docs_len == docs.len,
        meta.docs_hash@ == docs.hash@,
        meta.min_key@ == tables.sources@[0].key@,
        meta.max_key@ == tables.sources@.last().key@,
        meta.dead_hash@.len() == 0,
        meta.dead_len == 0,
        meta.packs@ == packs@,
{
    proof {
        reveal_strlit("");
    }
    SegmentMeta {
        seg_id,
        doc_count: tables.documents.len() as u32,
        terms_fst_len: terms.len,
        terms_fst_hash: terms.hash,
        terms_tail_hash,
        postings_len: postings.len,
        postings_hash: postings.hash,
        docs_len: docs.len,
        docs_hash: docs.hash,
        min_key: tables.sources[0].key.clone(),
        max_key: tables.sources[tables.sources.len() - 1].key.clone(),
        dead_hash: "".to_string(),
        dead_len: 0,
        packs,
    }
}

/// A segment reads back: its metadata agrees with the tables that it was written for.
pub proof fn written_segments_validate(meta: SegmentMeta, tables: SegmentTables)
    requires
        publish_error(tables, meta.packs@) is None,
        meta.doc_count == tables.documents@.len(),
        meta.min_key@ == tables.sources@[0].key@,
        meta.max_key@ == tables.sources@.last().key@,
    ensures
        crate::segment::tables_mismatch(meta, tables) is None,
{
}

/// The blobs that a failed write leaves behind. Packs stay: their names are their content's.
pub fn abandoned_blobs(seg_id: &str) -> (blobs: Vec<String>)
    ensures
        crate::segment::texts(blobs@) == seq![
            crate::names::segment_blob_name(seg_id@, "terms.fst"@),
            crate::names::segment_blob_name(seg_id@, "postings.bin"@),
            crate::names::segment_blob_name(seg_id@, "docs.bin"@),
        ],
{
    let mut blobs: Vec<String> = Vec::new();
    blobs.push(segment_blob(seg_id, "terms.fst"));
    blobs.push(segment_blob(seg_id, "postings.bin"));
    blobs.push(segment_blob(seg_id, "docs.bin"));
    assert(crate::segment::texts(blobs@) =~= seq![
        crate::names::segment_blob_name(seg_id@, "terms.fst"@),
        crate::names::segment_blob_name(seg_id@, "postings.bin"@),
        crate::names::segment_blob_name(seg_id@, "docs.bin"@),
    ]);
    blobs
}

/// Some segment has the ID `name`.
pub open spec fn is_current(segments: Seq<SegmentMeta>, name: Seq<char>) -> bool {
    exists|k: int| 0 <= k < segments.len() && (#[trigger] segments[k]).seg_id@ == name
}

/// Whether a cached directory belongs to no segment of the index any more.
pub fn is_stale(segments: &[SegmentMeta], name: &str) -> (stale: bool)
    ensures
        stale == !is_current(segments@, name@),
{
    let mut i: usize = 0;
    while i < segments.len()
        invariant
            i <= segments.len(),
            forall|k: int| 0 <= k < i ==> (#[trigger] segments@[k]).seg_id@ != name@,
        decreases segments.len() - i,
    {
        if text_eq(segments[i].seg_id.as_str(), name) {
            return false;
        }
        i = i + 1;
    }
    true
}

/// Why the index failed a reader.
#[derive(Debug, Clone, Copy, PartialEq, Eq, Structural)]
pub enum FailureCause {
    /// The index is as it was opened.
    Index,
    /// The index was replaced since it was opened.
    Changed,
    /// Whether the index was replaced could not be found out.
    Unknown,
}

/// Why a read failed, from the root's version when it was opened and what was found of it now:
/// an error, no root, or a root with a version.
pub fn classify_failure(opened: &str, current: Result<Option<&str>, ()>) -> (cause: FailureCause)
    ensures
        cause == match current {
            Err(_) => FailureCause::Unknown,
            Ok(None) => FailureCause::Changed,
            Ok(Some(version)) => if version@ == opened@ {
                FailureCause::Index
            } else {
                FailureCause::Changed
            },
        },
{
    match current {
        Err(_) => FailureCause::Unknown,
        Ok(None) => FailureCause::Changed,
        Ok(Some(version)) => if text_eq(version, opened) {
            FailureCause::Index
        } else {
            FailureCause::Changed
        },
    }
}

} // verus!
