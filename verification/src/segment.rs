//! Segments: what the root of an index says of them, the checks on it, the blobs that they are
//! made of, and the documents that they give as candidates.

use crate::error::IndexError;
use crate::format::SegmentTables;
use crate::maps::entries;
use crate::names::{dead_name, pack_blob, segment_blob};
use crate::pack_build::PackMeta;
use crate::posting_block::posting_block_len;
use crate::query::Strategy;
use crate::source::SourceIdentity;
use crate::text::{bytes_less, is_blank, is_sha256, text_eq, text_less};
use std::collections::BTreeMap;
use vstd::hash_set::StringHashSet;
use vstd::prelude::*;

verus! {

/// The format that is written and read.
pub const INDEX_FORMAT: u32 = 19;

/// Sparse dictionaries of this size or more are read remotely, unless configured otherwise.
pub const REMOTE_TERMS_MIN: u64 = 67108864;

#[derive(Debug)]
pub struct SegmentMeta {
    pub seg_id: String,
    pub doc_count: u32,
    pub terms_fst_len: u64,
    pub terms_fst_hash: String,
    /// SHA-256 of the sparse table's index and footer; empty for trigram.
    pub terms_tail_hash: String,
    pub postings_len: u64,
    pub postings_hash: String,
    pub docs_len: u64,
    pub docs_hash: String,
    pub min_key: String,
    pub max_key: String,
    pub dead_hash: String,
    pub dead_len: u64,
    pub packs: Vec<PackMeta>,
}

#[derive(Debug)]
pub struct SegmentList {
    pub format: u32,
    pub source: SourceIdentity,
    pub strategy: Strategy,
    pub segments: Vec<SegmentMeta>,
}

pub open spec fn id_seen(segments: Seq<SegmentMeta>, i: int) -> bool {
    exists|p: int| 0 <= p < i && (#[trigger] segments[p]).seg_id@ == segments[i].seg_id@
}

pub open spec fn packs_named(packs: Seq<PackMeta>) -> bool {
    forall|p: int|
        0 <= p < packs.len() ==> crate::text::sha256_text((#[trigger] packs[p]).hash@)
            && packs[p].len > 0
}

/// What is wrong with segment `i`, the segments before it being right.
pub open spec fn meta_error(segments: Seq<SegmentMeta>, i: int) -> Option<IndexError> {
    let meta = segments[i];
    if !crate::text::sha256_text(meta.seg_id@) {
        Some(IndexError::SegmentId)
    } else if !(crate::text::sha256_text(meta.terms_fst_hash@) && crate::text::sha256_text(
        meta.postings_hash@,
    ) && crate::text::sha256_text(meta.docs_hash@)) {
        Some(IndexError::SegmentBlobHash)
    } else if !(meta.terms_tail_hash@.len() == 0 || crate::text::sha256_text(
        meta.terms_tail_hash@,
    )) {
        Some(IndexError::SegmentTailHash)
    } else if id_seen(segments, i) {
        Some(IndexError::SegmentDuplicate)
    } else if crate::text::text_before(meta.max_key@, meta.min_key@) {
        Some(IndexError::SegmentKeyBounds)
    } else if !((meta.dead_hash@.len() == 0 && meta.dead_len == 0) || (crate::text::sha256_text(
        meta.dead_hash@,
    ) && meta.dead_len > 0)) {
        Some(IndexError::SegmentDeadMeta)
    } else if !packs_named(meta.packs@) {
        Some(IndexError::SegmentPackMeta)
    } else {
        None
    }
}

pub open spec fn metas_error(segments: Seq<SegmentMeta>, i: int) -> Option<IndexError>
    decreases segments.len() - i,
{
    if i >= segments.len() {
        None
    } else {
        match meta_error(segments, i) {
            Some(e) => Some(e),
            None => metas_error(segments, i + 1),
        }
    }
}

/// What is wrong with a root.
pub open spec fn list_error(list: SegmentList) -> Option<IndexError> {
    if list.format != INDEX_FORMAT {
        Some(IndexError::FormatVersion { found: list.format, current: INDEX_FORMAT })
    } else {
        match crate::source::source_error(list.source.identity()) {
            Some(e) => Some(e),
            None => metas_error(list.segments@, 0),
        }
    }
}

fn check_packs(packs: &[PackMeta]) -> (named: bool)
    ensures
        named == packs_named(packs@),
{
    let mut p: usize = 0;
    while p < packs.len()
        invariant
            p <= packs.len(),
            forall|k: int|
                0 <= k < p ==> crate::text::sha256_text((#[trigger] packs@[k]).hash@)
                    && packs@[k].len > 0,
        decreases packs.len() - p,
    {
        if !is_sha256(packs[p].hash.as_str()) || packs[p].len == 0 {
            assert(!(crate::text::sha256_text(packs@[p as int].hash@) && packs@[p as int].len > 0));
            return false;
        }
        p = p + 1;
    }
    true
}

impl SegmentList {
    /// Check a root that was read.
    pub fn check(&self) -> (checked: Result<(), IndexError>)
        ensures
            match checked {
                Ok(_) => list_error(*self) is None,
                Err(e) => list_error(*self) == Some(e),
            },
    {
        if self.format != INDEX_FORMAT {
            return Err(IndexError::FormatVersion { found: self.format, current: INDEX_FORMAT });
        }
        match self.source.validate() {
            Ok(_) => {},
            Err(e) => return Err(e),
        }
        let mut seen: StringHashSet = StringHashSet::new();
        let ghost segments = self.segments@;
        let mut i: usize = 0;
        while i < self.segments.len()
            invariant
                i <= self.segments.len(),
                segments == self.segments@,
                self.format == INDEX_FORMAT,
                crate::source::source_error(self.source.identity()) is None,
                metas_error(segments, 0) == metas_error(segments, i as int),
                forall|id: Seq<char>| #[trigger]
                    seen@.contains(id) <==> exists|p: int|
                        0 <= p < i && (#[trigger] segments[p]).seg_id@ == id,
            decreases self.segments.len() - i,
        {
            let meta = &self.segments[i];
            if !is_sha256(meta.seg_id.as_str()) {
                return Err(IndexError::SegmentId);
            }
            if !(is_sha256(meta.terms_fst_hash.as_str()) && is_sha256(meta.postings_hash.as_str())
                && is_sha256(meta.docs_hash.as_str())) {
                return Err(IndexError::SegmentBlobHash);
            }
            if !is_blank(meta.terms_tail_hash.as_str()) && !is_sha256(
                meta.terms_tail_hash.as_str(),
            ) {
                return Err(IndexError::SegmentTailHash);
            }
            if seen.contains(meta.seg_id.as_str()) {
                assert(id_seen(segments, i as int));
                return Err(IndexError::SegmentDuplicate);
            }
            assert(!id_seen(segments, i as int)) by {
                assert(!seen@.contains(segments[i as int].seg_id@));
            }
            if text_less(meta.max_key.as_str(), meta.min_key.as_str()) {
                return Err(IndexError::SegmentKeyBounds);
            }
            if !((is_blank(meta.dead_hash.as_str()) && meta.dead_len == 0) || (is_sha256(
                meta.dead_hash.as_str(),
            ) && meta.dead_len > 0)) {
                return Err(IndexError::SegmentDeadMeta);
            }
            if !check_packs(meta.packs.as_slice()) {
                return Err(IndexError::SegmentPackMeta);
            }
            let ghost before = seen@;
            seen.insert(meta.seg_id.clone());
            assert forall|id: Seq<char>| #[trigger] seen@.contains(id) <==> exists|p: int|
                0 <= p < i + 1 && (#[trigger] segments[p]).seg_id@ == id by {
                if before.contains(id) {
                    let p = choose|p: int| 0 <= p < i && (#[trigger] segments[p]).seg_id@ == id;
                    assert(segments[p].seg_id@ == id);
                }
                assert(segments[i as int].seg_id@ == meta.seg_id@);
            }
            i = i + 1;
        }
        Ok(())
    }
}

/// In a valid root no two segments share an ID.
pub proof fn valid_segments_distinct(list: SegmentList, i: int, j: int)
    requires
        list_error(list) is None,
        0 <= i < j < list.segments@.len(),
    ensures
        list.segments@[i].seg_id@ != list.segments@[j].seg_id@,
{
    lemma_metas_from(list.segments@, 0, j);
    if list.segments@[i].seg_id@ == list.segments@[j].seg_id@ {
        assert(id_seen(list.segments@, j));
    }
}

proof fn lemma_metas_from(segments: Seq<SegmentMeta>, i: int, j: int)
    requires
        metas_error(segments, i) is None,
        i <= j < segments.len(),
    ensures
        meta_error(segments, j) is None,
    decreases j - i,
{
    if i < j {
        lemma_metas_from(segments, i + 1, j);
    }
}

/// The block that ends pack `pack` among the first `n`.
pub open spec fn last_block(
    blocks: Seq<crate::format::PackBlock>,
    pack: int,
    n: int,
) -> Option<int>
    decreases n,
{
    if n <= 0 {
        None
    } else if blocks[n - 1].pack == pack {
        Some(n - 1)
    } else {
        last_block(blocks, pack, n - 1)
    }
}

/// What is wrong with pack `p`, the packs before it being right.
pub open spec fn pack_error(
    packs: Seq<PackMeta>,
    blocks: Seq<crate::format::PackBlock>,
    p: int,
) -> Option<IndexError> {
    match last_block(blocks, p, blocks.len() as int) {
        None => Some(IndexError::PackWithoutBlocks),
        Some(k) => if blocks[k].offset + blocks[k].compressed_len != packs[p].len {
            Some(IndexError::PackLength)
        } else {
            None
        },
    }
}

pub open spec fn packs_error(
    packs: Seq<PackMeta>,
    blocks: Seq<crate::format::PackBlock>,
    p: int,
) -> Option<IndexError>
    decreases packs.len() - p,
{
    if p >= packs.len() {
        None
    } else {
        match pack_error(packs, blocks, p) {
            Some(e) => Some(e),
            None => packs_error(packs, blocks, p + 1),
        }
    }
}

/// Packs that the blocks speak of.
pub open spec fn pack_count(blocks: Seq<crate::format::PackBlock>) -> int {
    if blocks.len() == 0 {
        0
    } else {
        blocks.last().pack + 1
    }
}

/// How a segment's tables and its metadata disagree.
pub open spec fn tables_mismatch(meta: SegmentMeta, tables: SegmentTables) -> Option<IndexError> {
    if tables.documents@.len() != meta.doc_count {
        Some(IndexError::SegmentDocCount)
    } else if tables.sources@.len() == 0 {
        Some(IndexError::SegmentEmpty)
    } else if tables.sources@[0].key@ != meta.min_key@ || tables.sources@.last().key@
        != meta.max_key@ {
        Some(IndexError::SegmentKeyMismatch)
    } else if pack_count(tables.blocks@) != meta.packs@.len() {
        Some(IndexError::SegmentPackCount)
    } else {
        packs_error(meta.packs@, tables.blocks@, 0)
    }
}

/// The packs are as long as the blocks say.
pub fn check_pack_lengths(packs: &[PackMeta], blocks: &[crate::format::PackBlock]) -> (checked:
    Result<(), IndexError>)
    ensures
        match checked {
            Ok(_) => packs_error(packs@, blocks@, 0) is None,
            Err(e) => packs_error(packs@, blocks@, 0) == Some(e),
        },
{
    let mut p: usize = 0;
    while p < packs.len()
        invariant
            p <= packs.len(),
            packs_error(packs@, blocks@, 0) == packs_error(packs@, blocks@, p as int),
        decreases packs.len() - p,
    {
        let mut n: usize = blocks.len();
        while n > 0 && blocks[n - 1].pack as u64 != p as u64
            invariant
                n <= blocks.len(),
                last_block(blocks@, p as int, blocks@.len() as int) == last_block(
                    blocks@,
                    p as int,
                    n as int,
                ),
            decreases n,
        {
            n = n - 1;
        }
        if n == 0 {
            return Err(IndexError::PackWithoutBlocks);
        }
        let end: Option<u64> = blocks[n - 1].offset.checked_add(
            blocks[n - 1].compressed_len as u64,
        );
        let fits: bool = match end {
            Some(end) => end == packs[p].len,
            None => false,
        };
        if !fits {
            return Err(IndexError::PackLength);
        }
        p = p + 1;
    }
    Ok(())
}

/// Check a segment's tables against its metadata.
pub fn validate_segment_tables(meta: &SegmentMeta, tables: &SegmentTables) -> (checked: Result<
    (),
    IndexError,
>)
    ensures
        match checked {
            Ok(_) => tables_mismatch(*meta, *tables) is None,
            Err(e) => tables_mismatch(*meta, *tables) == Some(e),
        },
{
    if tables.documents.len() as u64 != meta.doc_count as u64 {
        return Err(IndexError::SegmentDocCount);
    }
    if tables.sources.len() == 0 {
        return Err(IndexError::SegmentEmpty);
    }
    let first = &tables.sources[0];
    let last = &tables.sources[tables.sources.len() - 1];
    if !(text_eq(first.key.as_str(), meta.min_key.as_str()) && text_eq(
        last.key.as_str(),
        meta.max_key.as_str(),
    )) {
        return Err(IndexError::SegmentKeyMismatch);
    }
    let count: u64 = if tables.blocks.len() == 0 {
        0
    } else {
        tables.blocks[tables.blocks.len() - 1].pack as u64 + 1
    };
    if count != meta.packs.len() as u64 {
        return Err(IndexError::SegmentPackCount);
    }
    check_pack_lengths(meta.packs.as_slice(), tables.blocks.as_slice())
}

/// The texts of a list.
pub open spec fn texts(list: Seq<String>) -> Seq<Seq<char>> {
    list.map_values(|text: String| text@)
}

/// The blobs of a segment.
pub open spec fn blob_names(meta: SegmentMeta) -> Seq<Seq<char>> {
    seq![
        crate::names::segment_blob_name(meta.seg_id@, "terms.fst"@),
        crate::names::segment_blob_name(meta.seg_id@, "postings.bin"@),
        crate::names::segment_blob_name(meta.seg_id@, "docs.bin"@),
    ] + (if meta.dead_hash@.len() == 0 {
        Seq::empty()
    } else {
        seq![
            crate::names::segment_blob_name(
                meta.seg_id@,
                crate::names::dead_file_name(meta.dead_hash@),
            ),
        ]
    }) + meta.packs@.map_values(|pack: PackMeta| crate::names::pack_blob_name(pack.hash@))
}

/// The names of a segment's blobs.
pub fn meta_blobs(meta: &SegmentMeta) -> (blobs: Vec<String>)
    ensures
        texts(blobs@) == blob_names(*meta),
{
    let mut blobs: Vec<String> = Vec::new();
    blobs.push(segment_blob(meta.seg_id.as_str(), "terms.fst"));
    blobs.push(segment_blob(meta.seg_id.as_str(), "postings.bin"));
    blobs.push(segment_blob(meta.seg_id.as_str(), "docs.bin"));
    if !is_blank(meta.dead_hash.as_str()) {
        blobs.push(
            segment_blob(meta.seg_id.as_str(), dead_name(meta.dead_hash.as_str()).as_str()),
        );
    }
    let ghost head = texts(blobs@);
    let ghost names = meta.packs@.map_values(
        |pack: PackMeta| crate::names::pack_blob_name(pack.hash@),
    );
    let mut p: usize = 0;
    assert(head + names.take(0) =~= head);
    while p < meta.packs.len()
        invariant
            p <= meta.packs.len(),
            names == meta.packs@.map_values(
                |pack: PackMeta| crate::names::pack_blob_name(pack.hash@),
            ),
            texts(blobs@) == head + names.take(p as int),
        decreases meta.packs.len() - p,
    {
        let ghost before = texts(blobs@);
        blobs.push(pack_blob(meta.packs[p].hash.as_str()));
        assert(names[p as int] == crate::names::pack_blob_name(meta.packs@[p as int].hash@));
        assert(texts(blobs@) =~= before.push(names[p as int]));
        assert(texts(blobs@) =~= head + names.take(p + 1));
        p = p + 1;
    }
    assert(names.take(p as int) =~= names);
    assert(texts(blobs@) =~= blob_names(*meta));
    blobs
}

/// One of the first `n` segments has the blob.
pub open spec fn holds_blob(metas: Seq<SegmentMeta>, n: int, blob: Seq<char>) -> bool {
    exists|m: int| 0 <= m < n && blob_names(#[trigger] metas[m]).contains(blob)
}

/// The blobs of the segments.
pub fn named_blobs(metas: &[SegmentMeta]) -> (kept: StringHashSet)
    ensures
        forall|blob: Seq<char>| #[trigger]
            kept@.contains(blob) <==> holds_blob(metas@, metas@.len() as int, blob),
{
    let mut kept: StringHashSet = StringHashSet::new();
    let mut a: usize = 0;
    while a < metas.len()
        invariant
            a <= metas.len(),
            forall|blob: Seq<char>| #[trigger]
                kept@.contains(blob) <==> holds_blob(metas@, a as int, blob),
        decreases metas.len() - a,
    {
        let names = meta_blobs(&metas[a]);
        let ghost start = kept@;
        let mut n: usize = 0;
        while n < names.len()
            invariant
                n <= names.len(),
                texts(names@) == blob_names(metas@[a as int]),
                forall|blob: Seq<char>| #[trigger]
                    kept@.contains(blob) <==> start.contains(blob) || texts(names@).take(
                        n as int,
                    ).contains(blob),
            decreases names.len() - n,
        {
            kept.insert(names[n].clone());
            proof {
                crate::ids::lemma_take_contains(texts(names@), n as int);
            }
            n = n + 1;
        }
        assert(texts(names@).take(n as int) =~= texts(names@));
        assert forall|blob: Seq<char>| #[trigger] kept@.contains(blob) <==> holds_blob(
            metas@,
            a + 1,
            blob,
        ) by {
            lemma_holds_step(metas@, a as int, blob);
        }
        a = a + 1;
    }
    kept
}

/// Blobs of the segments before an update that no segment after it has, each once.
pub fn garbage(before: &[SegmentMeta], after: &[SegmentMeta]) -> (blobs: Vec<String>)
    ensures
        texts(blobs@).no_duplicates(),
        forall|blob: Seq<char>| #[trigger]
            texts(blobs@).contains(blob) <==> holds_blob(before@, before@.len() as int, blob)
                && !holds_blob(after@, after@.len() as int, blob),
{
    let kept = named_blobs(after);
    let mut blobs: Vec<String> = Vec::new();
    let mut dropped: StringHashSet = StringHashSet::new();
    let mut b: usize = 0;
    assert(texts(blobs@) =~= Seq::<Seq<char>>::empty());
    while b < before.len()
        invariant
            b <= before.len(),
            forall|blob: Seq<char>| #[trigger]
                kept@.contains(blob) <==> holds_blob(after@, after@.len() as int, blob),
            texts(blobs@).no_duplicates(),
            forall|blob: Seq<char>| #[trigger]
                dropped@.contains(blob) <==> texts(blobs@).contains(blob),
            forall|blob: Seq<char>| #[trigger]
                texts(blobs@).contains(blob) <==> holds_blob(before@, b as int, blob)
                    && !holds_blob(after@, after@.len() as int, blob),
        decreases before.len() - b,
    {
        let names = meta_blobs(&before[b]);
        let ghost start = texts(blobs@);
        let mut n: usize = 0;
        while n < names.len()
            invariant
                n <= names.len(),
                texts(names@) == blob_names(before@[b as int]),
                forall|blob: Seq<char>| #[trigger]
                    kept@.contains(blob) <==> holds_blob(after@, after@.len() as int, blob),
                texts(blobs@).no_duplicates(),
                forall|blob: Seq<char>| #[trigger]
                    dropped@.contains(blob) <==> texts(blobs@).contains(blob),
                forall|blob: Seq<char>| #[trigger]
                    texts(blobs@).contains(blob) <==> start.contains(blob) || texts(names@).take(
                        n as int,
                    ).contains(blob) && !holds_blob(after@, after@.len() as int, blob),
            decreases names.len() - n,
        {
            let name = &names[n];
            proof {
                crate::ids::lemma_take_contains(texts(names@), n as int);
                assert(texts(names@)[n as int] == name@);
            }
            if !kept.contains(name.as_str()) && !dropped.contains(name.as_str()) {
                let ghost held = texts(blobs@);
                dropped.insert(name.clone());
                blobs.push(name.clone());
                proof {
                    assert(texts(blobs@) =~= held.push(name@));
                    crate::ids::lemma_push_contains(held, name@);
                    assert(!held.contains(name@));
                    assert(texts(blobs@).no_duplicates());
                }
            }
            n = n + 1;
        }
        assert(texts(names@).take(n as int) =~= texts(names@));
        assert forall|blob: Seq<char>| #[trigger] texts(blobs@).contains(blob) <==> holds_blob(
            before@,
            b + 1,
            blob,
        ) && !holds_blob(after@, after@.len() as int, blob) by {
            lemma_holds_step(before@, b as int, blob);
            assert(start.contains(blob) ==> !holds_blob(after@, after@.len() as int, blob));
        }
        b = b + 1;
    }
    blobs
}

pub proof fn lemma_holds_step(metas: Seq<SegmentMeta>, n: int, blob: Seq<char>)
    requires
        0 <= n < metas.len(),
    ensures
        holds_blob(metas, n + 1, blob) <==> holds_blob(metas, n, blob) || blob_names(
            metas[n],
        ).contains(blob),
{
    if holds_blob(metas, n, blob) {
        let m = choose|m: int| 0 <= m < n && blob_names(#[trigger] metas[m]).contains(blob);
        assert(blob_names(metas[m]).contains(blob));
    }
}

/// What is wrong with a posting list.
pub open spec fn posting_error(
    offset: u64,
    count: u32,
    doc_count: u32,
    postings_len: u64,
) -> Option<IndexError> {
    let end = offset + crate::posting_block::block_len(count, doc_count);
    if count == 0 {
        Some(IndexError::EmptyPosting)
    } else if count > doc_count {
        Some(IndexError::PostingCountBounds)
    } else if end > u64::MAX {
        Some(IndexError::PostingLengthOverflow)
    } else if end > postings_len {
        Some(IndexError::PostingBounds)
    } else {
        None
    }
}

/// The byte ranges of posting lists, in order of offset, none of which is out of bounds.
pub open spec fn ranges_of(
    ranges: Seq<(u64, u64)>,
    needed: Map<u64, u32>,
    doc_count: u32,
    postings_len: u64,
) -> bool {
    &&& forall|i: int, j: int|
        0 <= i < j < ranges.len() ==> (#[trigger] ranges[i]).0 < (#[trigger] ranges[j]).0
    &&& forall|i: int|
        0 <= i < ranges.len() ==> needed.contains_key((#[trigger] ranges[i]).0) && ranges[i].1
            == crate::posting_block::block_len(needed[ranges[i].0], doc_count)
    &&& forall|offset: u64| #[trigger]
        needed.contains_key(offset) ==> posting_error(
            offset,
            needed[offset],
            doc_count,
            postings_len,
        ) is None && exists|i: int| 0 <= i < ranges.len() && (#[trigger] ranges[i]).0 == offset
}

/// The byte ranges of posting lists, given by offset and count, in order of offset.
pub fn posting_ranges(
    needed: &BTreeMap<u64, u32>,
    doc_count: u32,
    postings_len: u64,
) -> (ranges: Result<Vec<(u64, u64)>, IndexError>)
    ensures
        match ranges {
            Ok(list) => ranges_of(list@, needed@, doc_count, postings_len),
            Err(e) => exists|offset: u64| #[trigger]
                needed@.contains_key(offset) && posting_error(
                    offset,
                    needed@[offset],
                    doc_count,
                    postings_len,
                ) == Some(e) && forall|other: u64| #[trigger]
                    needed@.contains_key(other) && other < offset ==> posting_error(
                        other,
                        needed@[other],
                        doc_count,
                        postings_len,
                    ) is None,
        },
{
    let list = entries(needed);
    let mut ranges: Vec<(u64, u64)> = Vec::new();
    let mut i: usize = 0;
    while i < list.len()
        invariant
            i <= list.len(),
            crate::maps::lists_entries(list@, needed@),
            ranges@.len() == i,
            forall|k: int|
                0 <= k < i ==> (#[trigger] ranges@[k]).0 == list@[k].0 && ranges@[k].1
                    == crate::posting_block::block_len(list@[k].1, doc_count),
            forall|k: int|
                0 <= k < i ==> posting_error(
                    (#[trigger] list@[k]).0,
                    list@[k].1,
                    doc_count,
                    postings_len,
                ) is None,
        decreases list.len() - i,
    {
        let (offset, count): (u64, u32) = list[i];
        assert(needed@.contains_key(list@[i as int].0));
        assert forall|other: u64| #[trigger]
            needed@.contains_key(other) && other < offset implies posting_error(
            other,
            needed@[other],
            doc_count,
            postings_len,
        ) is None by {
            let k = choose|k: int| 0 <= k < list@.len() && (#[trigger] list@[k]).0 == other;
            if k > i {
                assert(list@[i as int].0 < list@[k].0);
            }
        }
        if count == 0 {
            return Err(IndexError::EmptyPosting);
        }
        if count > doc_count {
            return Err(IndexError::PostingCountBounds);
        }
        let len: u64 = posting_block_len(count, doc_count);
        let end: u64 = match offset.checked_add(len) {
            Some(end) => end,
            None => return Err(IndexError::PostingLengthOverflow),
        };
        if end > postings_len {
            return Err(IndexError::PostingBounds);
        }
        ranges.push((offset, len));
        i = i + 1;
    }
    proof {
        assert forall|a: int, b: int| 0 <= a < b < ranges@.len() implies (#[trigger] ranges@[a]).0
            < (#[trigger] ranges@[b]).0 by {
            assert(list@[a].0 < list@[b].0);
        }
        assert forall|k: int| 0 <= k < ranges@.len() implies needed@.contains_key(
            (#[trigger] ranges@[k]).0,
        ) && ranges@[k].1 == crate::posting_block::block_len(needed@[ranges@[k].0], doc_count) by {
            assert(needed@.contains_key(list@[k].0));
        }
        assert forall|offset: u64| #[trigger] needed@.contains_key(offset) implies posting_error(
            offset,
            needed@[offset],
            doc_count,
            postings_len,
        ) is None && exists|k: int| 0 <= k < ranges@.len() && (#[trigger] ranges@[k]).0 == offset by {
            let k = choose|k: int| 0 <= k < list@.len() && (#[trigger] list@[k]).0 == offset;
            assert(ranges@[k].0 == offset);
            assert(posting_error(list@[k].0, list@[k].1, doc_count, postings_len) is None);
        }
        assert(ranges_of(ranges@, needed@, doc_count, postings_len));
    }
    Ok(ranges)
}

/// The number that decimal digits spell.
pub open spec fn digits_value(bytes: Seq<u8>) -> nat
    decreases bytes.len(),
{
    if bytes.len() == 0 {
        0
    } else {
        digits_value(bytes.drop_last()) * 10 + (bytes.last() - 48) as nat
    }
}

pub open spec fn all_digits(bytes: Seq<u8>) -> bool {
    forall|i: int| 0 <= i < bytes.len() ==> 48 <= #[trigger] bytes[i] <= 57
}

/// The number that a text spells: decimal digits, with or without a plus sign, of at most 64
/// bits.
pub open spec fn number_of(bytes: Seq<u8>) -> Option<u64> {
    let digits = if bytes.len() > 0 && bytes[0] == 43 {
        bytes.skip(1)
    } else {
        bytes
    };
    if digits.len() > 0 && all_digits(digits) && digits_value(digits) <= u64::MAX {
        Some(digits_value(digits) as u64)
    } else {
        None
    }
}

proof fn lemma_digits_grow(bytes: Seq<u8>, n: int)
    requires
        0 <= n <= bytes.len(),
    ensures
        digits_value(bytes.take(n)) <= digits_value(bytes),
    decreases bytes.len() - n,
{
    if n < bytes.len() {
        lemma_digits_grow(bytes, n + 1);
        assert(bytes.take(n + 1).drop_last() =~= bytes.take(n));
    } else {
        assert(bytes.take(n) =~= bytes);
    }
}

fn parse_number(bytes: &[u8]) -> (number: Option<u64>)
    ensures
        number == number_of(bytes@),
{
    let start: usize = if bytes.len() > 0 && bytes[0] == 43 { 1 } else { 0 };
    let ghost digits = bytes@.skip(start as int);
    assert(digits =~= if bytes@.len() > 0 && bytes@[0] == 43 {
        bytes@.skip(1)
    } else {
        bytes@
    });
    if start == bytes.len() {
        return None;
    }
    let mut value: u64 = 0;
    let mut i: usize = start;
    assert(digits.take(0) =~= Seq::<u8>::empty());
    while i < bytes.len()
        invariant
            start <= i <= bytes.len(),
            start <= 1,
            digits == bytes@.skip(start as int),
            number_of(bytes@) == (if digits.len() > 0 && all_digits(digits) && digits_value(digits)
                <= u64::MAX {
                Some(digits_value(digits) as u64)
            } else {
                None
            }),
            value == digits_value(digits.take(i - start)),
            forall|k: int| 0 <= k < i - start ==> 48 <= #[trigger] digits[k] <= 57,
        decreases bytes.len() - i,
    {
        let b: u8 = bytes[i];
        assert(digits[i - start] == b);
        if b < 48 || b > 57 {
            return None;
        }
        proof {
            assert(digits.take(i - start + 1).drop_last() =~= digits.take(i - start));
            lemma_digits_grow(digits, i - start + 1);
        }
        let scaled: u64 = match value.checked_mul(10) {
            Some(scaled) => scaled,
            None => return None,
        };
        value = match scaled.checked_add((b - 48) as u64) {
            Some(sum) => sum,
            None => return None,
        };
        i = i + 1;
    }
    assert(digits.take(i - start) =~= digits);
    Some(value)
}

/// From which size on sparse dictionaries are read remotely.
pub fn parse_remote_terms_min(configured: Option<&str>) -> (bytes: Result<u64, IndexError>)
    ensures
        match configured {
            None => bytes == Ok::<u64, IndexError>(REMOTE_TERMS_MIN),
            Some(value) => match number_of(crate::text::utf8(value@)) {
                Some(n) => bytes == Ok::<u64, IndexError>(n),
                None => bytes == Err::<u64, IndexError>(IndexError::RemoteTermsMin),
            },
        },
{
    match configured {
        None => Ok(REMOTE_TERMS_MIN),
        Some(value) => match parse_number(value.as_bytes()) {
            Some(n) => Ok(n),
            None => Err(IndexError::RemoteTermsMin),
        },
    }
}

/// A segment's dictionary is read remotely, block by block.
pub fn opens_remotely(meta: &SegmentMeta, strategy: Strategy, remote_min: u64) -> (remote: bool)
    ensures
        remote == (strategy == Strategy::Sparse && meta.terms_tail_hash@.len() > 0
            && meta.terms_fst_len >= remote_min),
{
    strategy == Strategy::Sparse && !is_blank(meta.terms_tail_hash.as_str()) && meta.terms_fst_len
        >= remote_min
}

/// The least byte string above all that start with `prefix`; empty where there is none.
pub open spec fn above(prefix: Seq<u8>) -> Seq<u8>
    decreases prefix.len(),
{
    if prefix.len() == 0 {
        prefix
    } else if prefix.last() == 255 {
        above(prefix.drop_last())
    } else {
        prefix.drop_last().push((prefix.last() + 1) as u8)
    }
}

/// Keys with the prefix can lie between the two keys.
pub open spec fn prefix_between(min_key: Seq<char>, max_key: Seq<char>, prefix: Seq<char>) -> bool {
    let upper = above(crate::text::utf8(prefix));
    &&& !crate::text::text_before(max_key, prefix)
    &&& upper.len() == 0 || crate::text::bytes_before(crate::text::utf8(min_key), upper)
}

/// A segment can hold keys with the prefix.
pub fn prefix_overlaps(meta: &SegmentMeta, prefix: &str) -> (overlaps: bool)
    ensures
        overlaps == prefix_between(meta.min_key@, meta.max_key@, prefix@),
{
    if text_less(meta.max_key.as_str(), prefix) {
        return false;
    }
    let mut upper: Vec<u8> = Vec::new();
    upper.extend_from_slice(prefix.as_bytes());
    assert(upper@ =~= crate::text::utf8(prefix@));
    while upper.len() > 0 && upper[upper.len() - 1] == 255
        invariant
            above(upper@) == above(crate::text::utf8(prefix@)),
        decreases upper.len(),
    {
        let ghost before = upper@;
        upper.pop();
        assert(upper@ =~= before.drop_last());
    }
    if upper.len() == 0 {
        return true;
    }
    let ghost before = upper@;
    let last: u8 = upper[upper.len() - 1];
    upper.pop();
    upper.push(last + 1);
    assert(upper@ =~= above(before));
    bytes_less(meta.min_key.as_str().as_bytes(), upper.as_slice())
}

proof fn lemma_above_first(first: u8, rest: Seq<u8>)
    ensures
        above(seq![first] + rest) == if above(rest).len() > 0 {
            seq![first] + above(rest)
        } else {
            above(seq![first])
        },
    decreases rest.len(),
{
    let all = seq![first] + rest;
    if rest.len() == 0 {
        assert(all =~= seq![first]);
    } else {
        assert(all.drop_last() =~= seq![first] + rest.drop_last());
        if rest.last() == 255 {
            lemma_above_first(first, rest.drop_last());
        } else {
            assert(above(all) =~= seq![first] + above(rest));
        }
    }
}

/// What starts with a prefix comes before what is above the prefix.
proof fn lemma_prefixed_below(text: Seq<u8>, prefix: Seq<u8>)
    requires
        prefix.is_prefix_of(text),
        above(prefix).len() > 0,
    ensures
        crate::text::bytes_before(text, above(prefix)),
    decreases prefix.len(),
{
    let rest = prefix.skip(1);
    assert(prefix =~= seq![prefix[0]] + rest);
    assert(prefix[0] == text[0]);
    lemma_above_first(prefix[0], rest);
    let upper = above(prefix);
    if above(rest).len() > 0 {
        assert(rest.is_prefix_of(text.skip(1))) by {
            assert(text.skip(1).subrange(0, rest.len() as int) =~= text.subrange(
                0,
                prefix.len() as int,
            ).skip(1));
        }
        lemma_prefixed_below(text.skip(1), rest);
        assert(upper.skip(1) =~= above(rest));
        assert(upper[0] == text[0]);
    } else {
        assert(seq![prefix[0]].drop_last() =~= Seq::<u8>::empty());
        if prefix[0] == 255 {
            assert(above(Seq::<u8>::empty()) =~= Seq::<u8>::empty());
            assert(above(seq![prefix[0]]) =~= Seq::<u8>::empty());
        } else {
            assert(upper =~= seq![(prefix[0] + 1) as u8]);
        }
    }
}

proof fn lemma_prefix_not_after(text: Seq<u8>, prefix: Seq<u8>)
    requires
        prefix.is_prefix_of(text),
    ensures
        !crate::text::bytes_before(text, prefix),
    decreases prefix.len(),
{
    if prefix.len() > 0 {
        assert(prefix[0] == text[0]);
        assert(text.skip(1).subrange(0, prefix.len() - 1) =~= text.subrange(
            0,
            prefix.len() as int,
        ).skip(1));
        lemma_prefix_not_after(text.skip(1), prefix.skip(1));
    }
}

/// A segment that holds a key with the prefix is never passed over.
pub proof fn prefixed_keys_are_reached(
    min_key: Seq<char>,
    max_key: Seq<char>,
    key: Seq<char>,
    prefix: Seq<char>,
)
    requires
        !crate::text::text_before(key, min_key),
        !crate::text::text_before(max_key, key),
        crate::text::has_prefix(key, prefix),
    ensures
        prefix_between(min_key, max_key, prefix),
{
    let k = crate::text::utf8(key);
    let p = crate::text::utf8(prefix);
    let low = crate::text::utf8(min_key);
    let high = crate::text::utf8(max_key);
    lemma_prefix_not_after(k, p);
    if crate::text::bytes_before(high, p) {
        crate::text::lemma_before_total(k, p);
        crate::text::lemma_before_total(high, k);
        if k != p {
            crate::text::lemma_before_transitive(high, p, k);
        }
    }
    if above(p).len() > 0 {
        lemma_prefixed_below(k, p);
        crate::text::lemma_before_total(low, k);
        if low != k {
            crate::text::lemma_before_transitive(low, k, above(p));
        }
    }
}

proof fn lemma_above_front(first: u8, rest: Seq<u8>)
    ensures
        above(seq![first] + rest) == if above(rest).len() > 0 {
            seq![first] + above(rest)
        } else if first < 255 {
            seq![(first + 1) as u8]
        } else {
            Seq::empty()
        },
    decreases rest.len(),
{
    let whole = seq![first] + rest;
    if rest.len() == 0 {
        assert(whole =~= seq![first]);
        assert(whole.drop_last() =~= Seq::<u8>::empty());
        assert(above(whole.drop_last()) =~= Seq::<u8>::empty());
        if first < 255 {
            assert(above(whole) =~= seq![(first + 1) as u8]);
        }
    } else {
        assert(whole.drop_last() =~= seq![first] + rest.drop_last());
        assert(whole.last() == rest.last());
        if rest.last() == 255 {
            lemma_above_front(first, rest.drop_last());
        } else {
            assert(above(whole) =~= seq![first] + above(rest));
        }
    }
}

proof fn lemma_between_has_prefix(text: Seq<u8>, prefix: Seq<u8>)
    requires
        !crate::text::bytes_before(text, prefix),
        above(prefix).len() == 0 || crate::text::bytes_before(text, above(prefix)),
    ensures
        prefix.is_prefix_of(text),
    decreases prefix.len(),
{
    if prefix.len() > 0 {
        let rest = prefix.skip(1);
        assert(prefix =~= seq![prefix[0]] + rest);
        lemma_above_front(prefix[0], rest);
        let upper = above(prefix);
        assert(text.len() > 0 && text[0] >= prefix[0]);
        if above(rest).len() > 0 {
            assert(upper[0] == prefix[0]);
            assert(upper.skip(1) =~= above(rest));
            assert(text[0] <= upper[0]);
        } else if prefix[0] < 255 {
            assert(upper[0] == prefix[0] + 1);
            assert(upper.skip(1) =~= Seq::<u8>::empty());
            assert(!crate::text::bytes_before(text.skip(1), upper.skip(1)));
            assert(text[0] < upper[0]);
        }
        assert(text[0] == prefix[0]);
        lemma_between_has_prefix(text.skip(1), rest);
        assert forall|k: int| 0 <= k < prefix.len() implies prefix[k] == #[trigger] text[k] by {
            if k > 0 {
                assert(rest[k - 1] == text.skip(1)[k - 1]);
            }
        }
        assert(prefix =~= text.subrange(0, prefix.len() as int));
    }
}

/// A key lies between the first and the last key of a segment and has the prefix.
pub open spec fn could_hold(min_key: Seq<u8>, max_key: Seq<u8>, prefix: Seq<u8>, key: Seq<u8>) -> bool {
    &&& !crate::text::bytes_before(key, min_key)
    &&& !crate::text::bytes_before(max_key, key)
    &&& prefix.is_prefix_of(key)
}

/// A segment is opened for a prefix only where its keys could have it: there is a key with the prefix
/// between its first and its last key.
pub proof fn reached_segments_could_hold_the_prefix(
    min_key: Seq<char>,
    max_key: Seq<char>,
    prefix: Seq<char>,
)
    requires
        !crate::text::text_before(max_key, min_key),
        prefix_between(min_key, max_key, prefix),
    ensures
        exists|key: Seq<u8>| #[trigger]
            could_hold(
                crate::text::utf8(min_key),
                crate::text::utf8(max_key),
                crate::text::utf8(prefix),
                key,
            ),
{
    let low = crate::text::utf8(min_key);
    let high = crate::text::utf8(max_key);
    let start = crate::text::utf8(prefix);
    if crate::text::bytes_before(low, start) {
        crate::text::lemma_before_irreflexive(low);
        if crate::text::bytes_before(start, low) {
            crate::text::lemma_before_transitive(low, start, low);
        }
        assert(start =~= start.subrange(0, start.len() as int));
        assert(could_hold(low, high, start, start));
    } else {
        lemma_between_has_prefix(low, start);
        crate::text::lemma_before_irreflexive(low);
        assert(could_hold(low, high, start, low));
    }
}

proof fn lemma_metas_checked(segments: Seq<SegmentMeta>, i: int, k: int)
    requires
        metas_error(segments, i) is None,
        0 <= i <= k < segments.len(),
    ensures
        meta_error(segments, k) is None,
    decreases segments.len() - i,
{
    if i < k {
        lemma_metas_checked(segments, i + 1, k);
    }
}

/// Every segment of a checked list is named by hashes, has its keys in order, and knows its packs; its
/// dead documents are named and counted together or not at all.
pub proof fn checked_segments_are_well_named(list: SegmentList, k: int, p: int)
    requires
        list_error(list) is None,
        0 <= k < list.segments@.len(),
    ensures
        list.format == 19,
        ({
            let meta = list.segments@[k];
            &&& crate::text::sha256_text(meta.seg_id@)
            &&& crate::text::sha256_text(meta.terms_fst_hash@)
            &&& crate::text::sha256_text(meta.postings_hash@)
            &&& crate::text::sha256_text(meta.docs_hash@)
            &&& meta.terms_tail_hash@.len() == 0 || crate::text::sha256_text(meta.terms_tail_hash@)
            &&& !crate::text::text_before(meta.max_key@, meta.min_key@)
            &&& meta.dead_len == 0 <==> meta.dead_hash@.len() == 0
            &&& meta.dead_len > 0 ==> crate::text::sha256_text(meta.dead_hash@)
            &&& 0 <= p < meta.packs@.len() ==> crate::text::sha256_text(meta.packs@[p].hash@)
                && meta.packs@[p].len > 0
        }),
{
    lemma_metas_checked(list.segments@, 0, k);
    assert(crate::text::sha256_text(list.segments@[k].dead_hash@) ==> list.segments@[k].dead_hash@.len()
        > 0);
}

proof fn lemma_last_block(blocks: Seq<crate::format::PackBlock>, pack: int, n: int)
    requires
        0 <= n <= blocks.len(),
    ensures
        match last_block(blocks, pack, n) {
            Some(k) => 0 <= k < n && blocks[k].pack == pack && forall|j: int|
                k < j < n ==> (#[trigger] blocks[j]).pack != pack,
            None => forall|j: int| 0 <= j < n ==> (#[trigger] blocks[j]).pack != pack,
        },
    decreases n,
{
    if n > 0 {
        lemma_last_block(blocks, pack, n - 1);
    }
}

proof fn lemma_packs_checked(
    packs: Seq<PackMeta>,
    blocks: Seq<crate::format::PackBlock>,
    i: int,
    p: int,
)
    requires
        packs_error(packs, blocks, i) is None,
        0 <= i <= p < packs.len(),
    ensures
        pack_error(packs, blocks, p) is None,
    decreases packs.len() - i,
{
    if i < p {
        lemma_packs_checked(packs, blocks, i + 1, p);
    }
}

/// Tables that fit a segment have its documents and its first and last key, and each of its packs ends
/// where the last block in it ends.
pub proof fn fitting_tables_end_their_packs(meta: SegmentMeta, tables: SegmentTables, p: int)
    requires
        tables_mismatch(meta, tables) is None,
    ensures
        tables.documents@.len() == meta.doc_count,
        tables.sources@.len() > 0,
        tables.sources@[0].key@ == meta.min_key@,
        tables.sources@.last().key@ == meta.max_key@,
        0 <= p < meta.packs@.len() ==> exists|k: int|
            0 <= k < tables.blocks@.len() && (#[trigger] tables.blocks@[k]).pack == p
                && tables.blocks@[k].offset + tables.blocks@[k].compressed_len == meta.packs@[p].len
                && forall|j: int|
                k < j < tables.blocks@.len() ==> (#[trigger] tables.blocks@[j]).pack != p,
{
    if 0 <= p < meta.packs@.len() {
        lemma_packs_checked(meta.packs@, tables.blocks@, 0, p);
        lemma_last_block(tables.blocks@, p, tables.blocks@.len() as int);
        let k = last_block(tables.blocks@, p, tables.blocks@.len() as int)->0;
        assert(tables.blocks@[k].pack == p);
    }
}

/// The blobs of a segment are its terms, its postings, its documents, the dead set where there is one, and
/// all its packs, and nothing else.
pub proof fn segments_name_all_their_blobs(meta: SegmentMeta, blob: Seq<char>)
    ensures
        blob_names(meta).contains(blob) <==> {
            ||| blob == crate::names::segment_blob_name(meta.seg_id@, "terms.fst"@)
            ||| blob == crate::names::segment_blob_name(meta.seg_id@, "postings.bin"@)
            ||| blob == crate::names::segment_blob_name(meta.seg_id@, "docs.bin"@)
            ||| meta.dead_hash@.len() > 0 && blob == crate::names::segment_blob_name(
                meta.seg_id@,
                crate::names::dead_file_name(meta.dead_hash@),
            )
            ||| exists|p: int|
                0 <= p < meta.packs@.len() && blob == crate::names::pack_blob_name(
                    (#[trigger] meta.packs@[p]).hash@,
                )
        },
{
    let names = blob_names(meta);
    let extra: int = if meta.dead_hash@.len() == 0 {
        0
    } else {
        1
    };
    assert(names.len() == 3 + extra + meta.packs@.len());
    assert(names[0] == crate::names::segment_blob_name(meta.seg_id@, "terms.fst"@));
    assert(names[1] == crate::names::segment_blob_name(meta.seg_id@, "postings.bin"@));
    assert(names[2] == crate::names::segment_blob_name(meta.seg_id@, "docs.bin"@));
    if extra == 1 {
        assert(names[3] == crate::names::segment_blob_name(
            meta.seg_id@,
            crate::names::dead_file_name(meta.dead_hash@),
        ));
    }
    assert forall|p: int| 0 <= p < meta.packs@.len() implies names[3 + extra + p]
        == crate::names::pack_blob_name((#[trigger] meta.packs@[p]).hash@) by {}
    if names.contains(blob) {
        let k = choose|k: int| 0 <= k < names.len() && names[k] == blob;
        if k >= 3 + extra {
            let p = k - 3 - extra;
            assert(names[3 + extra + p] == crate::names::pack_blob_name(meta.packs@[p].hash@));
        }
    }
    if exists|p: int|
        0 <= p < meta.packs@.len() && blob == crate::names::pack_blob_name(
            (#[trigger] meta.packs@[p]).hash@,
        ) {
        let p = choose|p: int|
            0 <= p < meta.packs@.len() && blob == crate::names::pack_blob_name(
                (#[trigger] meta.packs@[p]).hash@,
            );
        assert(names[3 + extra + p] == blob);
    }
}

} // verus!
