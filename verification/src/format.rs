//! Segment tables: which sources a segment holds, the documents cut from them, and the pack
//! blocks that store the documents' bytes.

use crate::error::IndexError;
use crate::ids::contains_id;
use crate::text::{joined, text_eq, text_less};
use vstd::hash_set::StringHashSet;
use vstd::prelude::*;

verus! {

/// Decoded bytes of a full pack block.
pub const PACK_BLOCK_BYTES: usize = 131072;

/// How a source's bytes are encoded.
#[derive(Debug, Clone, Copy, PartialEq, Eq, Structural)]
pub enum SourceEncoding {
    Raw,
    Gzip,
    Zstd,
    Bzip2,
    Xz,
    Snappy,
    Lz4,
    Brotli,
    Zlib,
    Zip,
    Tar,
    Parquet,
    Avro,
    Arrow,
    Orc,
}

/// A listed object.
#[derive(Debug)]
pub struct SourceEntry {
    pub key: String,
    pub version: String,
    pub encoded_size: u64,
    pub encoding: SourceEncoding,
    pub first_doc: u32,
    pub doc_count: u32,
    pub failed: bool,
    pub retry: bool,
}

impl Clone for SourceEntry {
    fn clone(&self) -> (copy: SourceEntry)
        ensures
            copy == *self,
    {
        SourceEntry {
            key: self.key.clone(),
            version: self.version.clone(),
            encoded_size: self.encoded_size,
            encoding: self.encoding,
            first_doc: self.first_doc,
            doc_count: self.doc_count,
            failed: self.failed,
            retry: self.retry,
        }
    }
}

/// A searchable document: a source's whole text, or one member of an archive.
#[derive(Debug)]
pub struct DocEntry {
    pub display_key: String,
    pub source_id: u32,
    pub member_path: Option<String>,
    pub decoded_size: u64,
    pub first_block: u32,
    pub block_offset: u32,
    /// Length of the longest line, `u32::MAX` where it is longer than can be said.
    pub max_line_len: u32,
    /// Newlines in each candidate block.
    pub block_newlines: Vec<u32>,
}

/// Where a compressed block lies and what it decodes to.
#[derive(Debug, Clone, Copy, PartialEq, Eq)]
pub struct PackBlock {
    pub pack: u32,
    pub offset: u64,
    pub compressed_len: u32,
    pub decoded_len: u32,
    pub hash: [u8; 32],
}

#[derive(Debug)]
pub struct SegmentTables {
    pub sources: Vec<SourceEntry>,
    pub documents: Vec<DocEntry>,
    pub blocks: Vec<PackBlock>,
}

/// The key under which an archive member is shown.
pub open spec fn member_key(source: Seq<char>, member: Seq<char>) -> Seq<char> {
    source + "!/"@ + member
}

/// Documents of the first `i` sources.
pub open spec fn docs_before(sources: Seq<SourceEntry>, i: nat) -> nat
    decreases i,
{
    if i == 0 {
        0
    } else {
        docs_before(sources, (i - 1) as nat) + sources[i - 1].doc_count as nat
    }
}

/// Decoded bytes of the first `k` blocks.
pub open spec fn bytes_before(blocks: Seq<PackBlock>, k: nat) -> nat
    decreases k,
{
    if k == 0 {
        0
    } else {
        bytes_before(blocks, (k - 1) as nat) + blocks[k - 1].decoded_len as nat
    }
}

/// Bytes of the first `i` documents.
pub open spec fn doc_bytes_before(documents: Seq<DocEntry>, i: nat) -> nat
    decreases i,
{
    if i == 0 {
        0
    } else {
        doc_bytes_before(documents, (i - 1) as nat) + documents[i - 1].decoded_size as nat
    }
}

/// `(block, offset)` is byte `position` of the blocks laid end to end; the end is
/// `(blocks.len(), 0)`.
pub open spec fn at_position(
    blocks: Seq<PackBlock>,
    block: nat,
    offset: nat,
    position: nat,
) -> bool {
    &&& block <= blocks.len()
    &&& bytes_before(blocks, block) + offset == position
    &&& if block < blocks.len() {
        offset < blocks[block as int].decoded_len
    } else {
        offset == 0
    }
}

pub open spec fn key_seen(documents: Seq<DocEntry>, d: int) -> bool {
    exists|p: int| 0 <= p < d && documents[p].display_key@ == documents[d].display_key@
}

/// What is wrong with document `d` of source `i`.
pub open spec fn doc_error(t: SegmentTables, i: int, d: int) -> Option<IndexError> {
    let doc = t.documents@[d];
    let source = t.sources@[i];
    if doc.source_id != i {
        Some(IndexError::WrongSource)
    } else if doc.member_path is Some && (doc.member_path->0@.len() == 0 || doc.display_key@
        != member_key(source.key@, doc.member_path->0@)) {
        Some(IndexError::MemberKeyMismatch)
    } else if doc.member_path is None && doc.display_key@ != source.key@ {
        Some(IndexError::SourceKeyMismatch)
    } else if key_seen(t.documents@, d) {
        Some(IndexError::DuplicateKey)
    } else {
        None
    }
}

/// The first thing wrong among documents `d..end` of source `i`.
pub open spec fn docs_error(t: SegmentTables, i: int, d: int, end: int) -> Option<IndexError>
    decreases end - d,
{
    if d >= end {
        None
    } else {
        match doc_error(t, i, d) {
            Some(e) => Some(e),
            None => docs_error(t, i, d + 1, end),
        }
    }
}

/// Documents `start..end` are in key order.
pub open spec fn docs_sorted(documents: Seq<DocEntry>, start: int, end: int) -> bool {
    forall|d: int|
        start <= d < end - 1 ==> crate::text::text_before(
            (#[trigger] documents[d]).display_key@,
            documents[d + 1].display_key@,
        )
}

/// What is wrong with source `i`, the sources before it being right.
pub open spec fn source_error(t: SegmentTables, i: int) -> Option<IndexError> {
    let source = t.sources@[i];
    let start = source.first_doc as int;
    let end = start + source.doc_count;
    if i > 0 && !crate::text::text_before(t.sources@[i - 1].key@, source.key@) {
        Some(IndexError::SourcesUnsorted)
    } else if start != docs_before(t.sources@, i as nat) {
        Some(IndexError::SourceRangeGap)
    } else if end > t.documents@.len() {
        Some(IndexError::SourceRangeBounds)
    } else if source.failed && source.doc_count > 0 {
        Some(IndexError::FailedWithDocuments)
    } else if source.retry && !source.failed {
        Some(IndexError::RetryNotFailed)
    } else {
        match docs_error(t, i, start, end) {
            Some(e) => Some(e),
            None => if docs_sorted(t.documents@, start, end) {
                None
            } else {
                Some(IndexError::DocumentsUnsorted)
            },
        }
    }
}

/// The first thing wrong from source `i` on.
pub open spec fn sources_error(t: SegmentTables, i: int) -> Option<IndexError>
    decreases t.sources@.len() - i,
{
    if i >= t.sources@.len() {
        if docs_before(t.sources@, t.sources@.len()) == t.documents@.len() {
            None
        } else {
            Some(IndexError::UnownedDocuments)
        }
    } else {
        match source_error(t, i) {
            Some(e) => Some(e),
            None => sources_error(t, i + 1),
        }
    }
}

/// Where block `k` must start.
pub open spec fn block_start(blocks: Seq<PackBlock>, k: int) -> int {
    if k > 0 && blocks[k - 1].pack == blocks[k].pack {
        blocks[k - 1].offset + blocks[k - 1].compressed_len
    } else {
        0
    }
}

/// What is wrong with block `k`, the blocks before it being right.
pub open spec fn block_error(blocks: Seq<PackBlock>, k: int) -> Option<IndexError> {
    let block = blocks[k];
    if block.compressed_len == 0 {
        Some(IndexError::BlockCompressedLength)
    } else if block.decoded_len == 0 || block.decoded_len > PACK_BLOCK_BYTES {
        Some(IndexError::BlockDecodedLength)
    } else if k > 0 && blocks[k - 1].pack != block.pack && block.pack != blocks[k - 1].pack + 1 {
        Some(IndexError::PackIdGap)
    } else if block.offset != block_start(blocks, k) {
        Some(IndexError::BlockOffsetGap)
    } else if block.offset + block.compressed_len > u64::MAX {
        Some(IndexError::BlockOffsetOverflow)
    } else {
        None
    }
}

pub open spec fn blocks_error(blocks: Seq<PackBlock>, k: int) -> Option<IndexError>
    decreases blocks.len() - k,
{
    if k >= blocks.len() {
        None
    } else {
        match block_error(blocks, k) {
            Some(e) => Some(e),
            None => blocks_error(blocks, k + 1),
        }
    }
}

/// What is wrong with the pack coordinates of document `i`, those before it being right.
pub open spec fn coordinate_error(
    documents: Seq<DocEntry>,
    blocks: Seq<PackBlock>,
    i: int,
) -> Option<IndexError> {
    let doc = documents[i];
    let position = doc_bytes_before(documents, i as nat);
    if doc.decoded_size == 0 {
        if doc.first_block != 0 || doc.block_offset != 0 {
            Some(IndexError::EmptyDocumentCoordinates)
        } else {
            None
        }
    } else if !at_position(blocks, doc.first_block as nat, doc.block_offset as nat, position) {
        Some(IndexError::DocumentCoordinateGap)
    } else if position + doc.decoded_size > bytes_before(blocks, blocks.len()) {
        Some(IndexError::DocumentOutsideBlocks)
    } else {
        None
    }
}

pub open spec fn coordinates_error(
    documents: Seq<DocEntry>,
    blocks: Seq<PackBlock>,
    i: int,
) -> Option<IndexError>
    decreases documents.len() - i,
{
    if i >= documents.len() {
        if doc_bytes_before(documents, documents.len()) == bytes_before(blocks, blocks.len()) {
            None
        } else {
            Some(IndexError::UnownedBlockBytes)
        }
    } else {
        match coordinate_error(documents, blocks, i) {
            Some(e) => Some(e),
            None => coordinates_error(documents, blocks, i + 1),
        }
    }
}

/// The first thing wrong with segment tables.
pub open spec fn table_error(t: SegmentTables) -> Option<IndexError> {
    match sources_error(t, 0) {
        Some(e) => Some(e),
        None => match blocks_error(t.blocks@, 0) {
            Some(e) => Some(e),
            None => coordinates_error(t.documents@, t.blocks@, 0),
        },
    }
}

proof fn lemma_bytes_before_mono(blocks: Seq<PackBlock>, a: nat, b: nat)
    requires
        a <= b,
    ensures
        bytes_before(blocks, a) <= bytes_before(blocks, b),
    decreases b - a,
{
    if a < b {
        lemma_bytes_before_mono(blocks, a, (b - 1) as nat);
    }
}

/// A position has one place among non-empty blocks.
pub proof fn lemma_position_unique(
    blocks: Seq<PackBlock>,
    block: nat,
    offset: nat,
    other: nat,
    other_offset: nat,
    position: nat,
)
    requires
        at_position(blocks, block, offset, position),
        at_position(blocks, other, other_offset, position),
    ensures
        block == other,
        offset == other_offset,
{
    if block < other {
        lemma_bytes_before_mono(blocks, block + 1, other);
    } else if other < block {
        lemma_bytes_before_mono(blocks, other + 1, block);
    }
}

fn check_document(t: &SegmentTables, i: usize, d: usize, seen: &StringHashSet) -> (error: Option<
    IndexError,
>)
    requires
        i < t.sources.len(),
        d < t.documents.len(),
        forall|key: Seq<char>|
            seen@.contains(key) <==> exists|p: int|
                0 <= p < d && (#[trigger] t.documents@[p]).display_key@ == key,
    ensures
        error == doc_error(*t, i as int, d as int),
{
    let document = &t.documents[d];
    let source = &t.sources[i];
    if document.source_id as usize != i {
        return Some(IndexError::WrongSource);
    }
    match &document.member_path {
        Some(member) => {
            let wanted = joined(joined(source.key.as_str(), "!/").as_str(), member.as_str());
            if crate::text::is_blank(member.as_str()) || !text_eq(
                document.display_key.as_str(),
                wanted.as_str(),
            ) {
                return Some(IndexError::MemberKeyMismatch);
            }
        },
        None => {
            if !text_eq(document.display_key.as_str(), source.key.as_str()) {
                return Some(IndexError::SourceKeyMismatch);
            }
        },
    }
    if seen.contains(document.display_key.as_str()) {
        let ghost p = choose|p: int|
            0 <= p < d && (#[trigger] t.documents@[p]).display_key@ == document.display_key@;
        assert(key_seen(t.documents@, d as int)) by {
            assert(t.documents@[p].display_key@ == t.documents@[d as int].display_key@);
        }
        return Some(IndexError::DuplicateKey);
    }
    None
}

impl SegmentTables {
    /// Check that the tables describe a segment: sources and documents in order and owned,
    /// blocks contiguous in their packs, and the documents' bytes laid end to end over the
    /// blocks.
    pub fn validate(&self) -> (checked: Result<(), IndexError>)
        ensures
            match checked {
                Ok(_) => table_error(*self) is None,
                Err(e) => table_error(*self) == Some(e),
            },
    {
        match self.check_sources() {
            Ok(_) => {},
            Err(e) => return Err(e),
        }
        match self.check_blocks() {
            Ok(_) => {},
            Err(e) => return Err(e),
        }
        self.check_coordinates()
    }

    #[verifier::rlimit(60)]
    fn check_sources(&self) -> (checked: Result<(), IndexError>)
        ensures
            match checked {
                Ok(_) => sources_error(*self, 0) is None,
                Err(e) => sources_error(*self, 0) == Some(e),
            },
    {
        let mut seen = StringHashSet::new();
        let mut expected: usize = 0;
        let mut i: usize = 0;
        while i < self.sources.len()
            invariant
                i <= self.sources.len(),
                expected == docs_before(self.sources@, i as nat),
                expected <= self.documents.len(),
                sources_error(*self, 0) == sources_error(*self, i as int),
                forall|key: Seq<char>|
                    seen@.contains(key) <==> exists|p: int|
                        0 <= p < expected && (#[trigger] self.documents@[p]).display_key@ == key,
            decreases self.sources.len() - i,
        {
            let source = &self.sources[i];
            if i > 0 && !text_less(self.sources[i - 1].key.as_str(), source.key.as_str()) {
                return Err(IndexError::SourcesUnsorted);
            }
            let start: usize = source.first_doc as usize;
            if start != expected {
                return Err(IndexError::SourceRangeGap);
            }
            if source.doc_count as usize > self.documents.len() - start {
                return Err(IndexError::SourceRangeBounds);
            }
            let end: usize = start + source.doc_count as usize;
            if source.failed && source.doc_count > 0 {
                return Err(IndexError::FailedWithDocuments);
            }
            if source.retry && !source.failed {
                return Err(IndexError::RetryNotFailed);
            }
            let mut d: usize = start;
            while d < end
                invariant
                    i < self.sources.len(),
                    start <= d <= end <= self.documents.len(),
                    docs_error(*self, i as int, start as int, end as int) == docs_error(
                        *self,
                        i as int,
                        d as int,
                        end as int,
                    ),
                    forall|key: Seq<char>|
                        seen@.contains(key) <==> exists|p: int|
                            0 <= p < d && (#[trigger] self.documents@[p]).display_key@ == key,
                    docs_error(*self, i as int, start as int, end as int) matches Some(e)
                        ==> sources_error(*self, 0) == Some(e),
                decreases end - d,
            {
                match check_document(self, i, d, &seen) {
                    Some(e) => return Err(e),
                    None => {},
                }
                let ghost before = seen@;
                seen.insert(self.documents[d].display_key.clone());
                assert forall|key: Seq<char>|
                    seen@.contains(key) <==> exists|p: int|
                        0 <= p < d + 1 && (#[trigger] self.documents@[p]).display_key@ == key by {
                    if before.contains(key) {
                        let p = choose|p: int|
                            0 <= p < d && (#[trigger] self.documents@[p]).display_key@ == key;
                        assert(self.documents@[p].display_key@ == key);
                    }
                    assert(self.documents@[d as int].display_key@ == self.documents@[d as int]
                        .display_key@);
                }
                d = d + 1;
            }
            let mut d: usize = start;
            while d < end
                invariant
                    start <= d <= end <= self.documents.len(),
                    i < self.sources.len(),
                    forall|k: int|
                        start <= k < d && k < end - 1 ==> crate::text::text_before(
                            (#[trigger] self.documents@[k]).display_key@,
                            self.documents@[k + 1].display_key@,
                        ),
                    docs_sorted(self.documents@, start as int, end as int) || sources_error(
                        *self,
                        0,
                    ) == Some(IndexError::DocumentsUnsorted),
                decreases end - d,
            {
                if end - d >= 2 && !text_less(
                    self.documents[d].display_key.as_str(),
                    self.documents[d + 1].display_key.as_str(),
                ) {
                    assert(!docs_sorted(self.documents@, start as int, end as int)) by {
                        let k = d as int;
                        assert(start <= k < end - 1);
                        assert(!crate::text::text_before(
                            self.documents@[k].display_key@,
                            self.documents@[k + 1].display_key@,
                        ));
                    }
                    return Err(IndexError::DocumentsUnsorted);
                }
                d = d + 1;
            }
            assert(docs_sorted(self.documents@, start as int, end as int));
            expected = end;
            i = i + 1;
        }
        if expected != self.documents.len() {
            return Err(IndexError::UnownedDocuments);
        }
        Ok(())
    }

    fn check_blocks(&self) -> (checked: Result<(), IndexError>)
        ensures
            match checked {
                Ok(_) => blocks_error(self.blocks@, 0) is None && forall|k: int|
                    0 <= k < self.blocks@.len() ==> (#[trigger] self.blocks@[k]).decoded_len > 0,
                Err(e) => blocks_error(self.blocks@, 0) == Some(e),
            },
    {
        let mut k: usize = 0;
        let mut expected: u64 = 0;
        while k < self.blocks.len()
            invariant
                k <= self.blocks.len(),
                k > 0 ==> expected == self.blocks@[k - 1].offset + self.blocks@[k
                    - 1].compressed_len,
                k == 0 ==> expected == 0,
                blocks_error(self.blocks@, 0) == blocks_error(self.blocks@, k as int),
                forall|j: int| 0 <= j < k ==> (#[trigger] self.blocks@[j]).decoded_len > 0,
            decreases self.blocks.len() - k,
        {
            let block = &self.blocks[k];
            if block.compressed_len == 0 {
                return Err(IndexError::BlockCompressedLength);
            }
            if block.decoded_len == 0 || block.decoded_len > 131072 {
                return Err(IndexError::BlockDecodedLength);
            }
            if k > 0 {
                let previous: u32 = self.blocks[k - 1].pack;
                if block.pack != previous {
                    if block.pack as u64 != previous as u64 + 1 {
                        return Err(IndexError::PackIdGap);
                    }
                    expected = 0;
                }
            }
            if block.offset != expected {
                return Err(IndexError::BlockOffsetGap);
            }
            expected = match expected.checked_add(block.compressed_len as u64) {
                Some(end) => end,
                None => return Err(IndexError::BlockOffsetOverflow),
            };
            k = k + 1;
        }
        Ok(())
    }

    fn check_coordinates(&self) -> (checked: Result<(), IndexError>)
        requires
            forall|k: int|
                0 <= k < self.blocks@.len() ==> (#[trigger] self.blocks@[k]).decoded_len > 0,
        ensures
            match checked {
                Ok(_) => coordinates_error(self.documents@, self.blocks@, 0) is None,
                Err(e) => coordinates_error(self.documents@, self.blocks@, 0) == Some(e),
            },
    {
        let mut next_block: usize = 0;
        let mut next_offset: u64 = 0;
        let mut i: usize = 0;
        let ghost documents = self.documents@;
        let ghost blocks = self.blocks@;
        while i < self.documents.len()
            invariant
                i <= self.documents.len(),
                documents == self.documents@,
                blocks == self.blocks@,
                forall|k: int| 0 <= k < blocks.len() ==> (#[trigger] blocks[k]).decoded_len > 0,
                at_position(
                    blocks,
                    next_block as nat,
                    next_offset as nat,
                    doc_bytes_before(documents, i as nat),
                ),
                coordinates_error(documents, blocks, 0) == coordinates_error(
                    documents,
                    blocks,
                    i as int,
                ),
            decreases self.documents.len() - i,
        {
            let document = &self.documents[i];
            let ghost position = doc_bytes_before(documents, i as nat);
            if document.decoded_size == 0 {
                if document.first_block != 0 || document.block_offset != 0 {
                    return Err(IndexError::EmptyDocumentCoordinates);
                }
                i = i + 1;
                continue ;
            }
            proof {
                if at_position(
                    blocks,
                    document.first_block as nat,
                    document.block_offset as nat,
                    position,
                ) {
                    lemma_position_unique(
                        blocks,
                        document.first_block as nat,
                        document.block_offset as nat,
                        next_block as nat,
                        next_offset as nat,
                        position,
                    );
                }
            }
            if document.first_block as usize != next_block || document.block_offset as u64
                != next_offset {
                return Err(IndexError::DocumentCoordinateGap);
            }
            let mut remaining: u64 = document.decoded_size;
            let ghost end = position + document.decoded_size;
            while remaining > 0
                invariant
                    documents == self.documents@,
                    blocks == self.blocks@,
                    forall|k: int| 0 <= k < blocks.len() ==> (#[trigger] blocks[k]).decoded_len > 0,
                    remaining <= end,
                    at_position(
                        blocks,
                        next_block as nat,
                        next_offset as nat,
                        (end - remaining) as nat,
                    ),
                    end > bytes_before(blocks, blocks.len()) ==> coordinates_error(
                        documents,
                        blocks,
                        0,
                    ) == Some(IndexError::DocumentOutsideBlocks),
                decreases remaining,
            {
                if next_block >= self.blocks.len() {
                    return Err(IndexError::DocumentOutsideBlocks);
                }
                let decoded_len: u64 = self.blocks[next_block].decoded_len as u64;
                let available: u64 = decoded_len - next_offset;
                let consumed: u64 = if remaining < available { remaining } else { available };
                remaining = remaining - consumed;
                next_offset = next_offset + consumed;
                if next_offset == decoded_len {
                    next_block = next_block + 1;
                    next_offset = 0;
                }
            }
            proof {
                if end > bytes_before(blocks, blocks.len()) {
                    lemma_bytes_before_mono(blocks, next_block as nat, blocks.len());
                    if (next_block as nat) < blocks.len() {
                        lemma_bytes_before_mono(blocks, next_block as nat + 1, blocks.len());
                    }
                }
            }
            i = i + 1;
        }
        proof {
            let position = doc_bytes_before(documents, documents.len());
            if next_block < blocks.len() {
                lemma_bytes_before_mono(blocks, next_block as nat + 1, blocks.len());
            }
        }
        if next_block != self.blocks.len() || next_offset != 0 {
            return Err(IndexError::UnownedBlockBytes);
        }
        Ok(())
    }
}

/// Sources and documents of a segment that no longer count, as sorted ids.
#[derive(Debug)]
pub struct DeadSet {
    pub sources: Vec<u32>,
    pub documents: Vec<u32>,
}

impl Default for DeadSet {
    fn default() -> (dead: DeadSet)
        ensures
            dead.sources@.len() == 0,
            dead.documents@.len() == 0,
    {
        DeadSet { sources: Vec::new(), documents: Vec::new() }
    }
}

impl Clone for DeadSet {
    fn clone(&self) -> (copy: DeadSet)
        ensures
            copy.sources@ == self.sources@,
            copy.documents@ == self.documents@,
    {
        let sources = self.sources.clone();
        let documents = self.documents.clone();
        assert(sources@ =~= self.sources@);
        assert(documents@ =~= self.documents@);
        DeadSet { sources, documents }
    }
}

/// What is wrong with dead source `i`: each of its documents must be dead too.
pub open spec fn dead_source_error(dead: DeadSet, t: SegmentTables, i: int) -> Option<IndexError> {
    let source = t.sources@[dead.sources@[i] as int];
    if source.first_doc + source.doc_count > u32::MAX {
        Some(IndexError::DeadRangeOverflow)
    } else if exists|d: u32|
        source.first_doc <= d < source.first_doc + source.doc_count
            && !#[trigger] dead.documents@.contains(d) {
        Some(IndexError::DeadSourceLive)
    } else {
        None
    }
}

pub open spec fn dead_sources_error(dead: DeadSet, t: SegmentTables, i: int) -> Option<IndexError>
    decreases dead.sources@.len() - i,
{
    if i >= dead.sources@.len() {
        if exists|k: int|
            0 <= k < dead.documents@.len() && !dead.sources@.contains(
                t.documents@[#[trigger] dead.documents@[k] as int].source_id,
            ) {
            Some(IndexError::DeadDocumentOrphan)
        } else {
            None
        }
    } else {
        match dead_source_error(dead, t, i) {
            Some(e) => Some(e),
            None => dead_sources_error(dead, t, i + 1),
        }
    }
}

/// The first thing wrong with a dead set over its segment's tables.
pub open spec fn dead_error(dead: DeadSet, t: SegmentTables) -> Option<IndexError> {
    if dead.sources@.len() > 0 && dead.sources@.last() >= t.sources@.len() {
        Some(IndexError::DeadSourceBounds)
    } else if dead.documents@.len() > 0 && dead.documents@.last() >= t.documents@.len() {
        Some(IndexError::DeadDocumentBounds)
    } else {
        dead_sources_error(dead, t, 0)
    }
}

fn is_ascending(ids: &[u32]) -> (ordered: bool)
    ensures
        ordered == crate::ids::ascending(ids@),
{
    let mut i: usize = 1;
    while i < ids.len()
        invariant
            1 <= i,
            ids.len() == 0 || i <= ids.len(),
            forall|a: int, b: int| 0 <= a < b < i && b < ids.len() ==> ids@[a] < ids@[b],
        decreases ids.len() - i,
    {
        if ids[i - 1] >= ids[i] {
            assert(!(ids@[i - 1] < ids@[i as int]));
            return false;
        }
        assert forall|a: int, b: int| 0 <= a < b < i + 1 && b < ids.len() implies ids@[a]
            < ids@[b] by {
            if b == i && a < i - 1 {
                assert(ids@[a] < ids@[i - 1]);
            }
        }
        i = i + 1;
    }
    true
}

impl DeadSet {
    /// Both id lists are strictly ascending.
    pub open spec fn ordered(&self) -> bool {
        crate::ids::ascending(self.sources@) && crate::ids::ascending(self.documents@)
    }

    /// Check the order that the other operations rely on.
    pub fn check_order(&self) -> (checked: Result<(), IndexError>)
        ensures
            match checked {
                Ok(_) => self.ordered(),
                Err(e) => if crate::ids::ascending(self.sources@) {
                    !crate::ids::ascending(self.documents@) && e
                        == IndexError::DeadDocumentsUnsorted
                } else {
                    e == IndexError::DeadSourcesUnsorted
                },
            },
    {
        if !is_ascending(self.sources.as_slice()) {
            return Err(IndexError::DeadSourcesUnsorted);
        }
        if !is_ascending(self.documents.as_slice()) {
            return Err(IndexError::DeadDocumentsUnsorted);
        }
        Ok(())
    }

    /// Check a dead set against its segment's tables: ids in bounds, and whole sources dead.
    pub fn validate(&self, tables: &SegmentTables) -> (checked: Result<(), IndexError>)
        requires
            self.ordered(),
        ensures
            match checked {
                Ok(_) => dead_error(*self, *tables) is None,
                Err(e) => dead_error(*self, *tables) == Some(e),
            },
    {
        if self.sources.len() > 0 {
            let last: u32 = self.sources[self.sources.len() - 1];
            if last as usize >= tables.sources.len() {
                return Err(IndexError::DeadSourceBounds);
            }
        }
        if self.documents.len() > 0 {
            let last: u32 = self.documents[self.documents.len() - 1];
            if last as usize >= tables.documents.len() {
                return Err(IndexError::DeadDocumentBounds);
            }
        }
        let mut i: usize = 0;
        while i < self.sources.len()
            invariant
                self.ordered(),
                i <= self.sources.len(),
                self.sources@.len() > 0 ==> self.sources@.last() < tables.sources@.len(),
                dead_error(*self, *tables) == dead_sources_error(*self, *tables, i as int),
            decreases self.sources.len() - i,
        {
            assert(self.sources@[i as int] <= self.sources@.last());
            let source = &tables.sources[self.sources[i] as usize];
            let end: u32 = match source.first_doc.checked_add(source.doc_count) {
                Some(end) => end,
                None => return Err(IndexError::DeadRangeOverflow),
            };
            let mut d: u32 = source.first_doc;
            while d < end
                invariant
                    self.ordered(),
                    i < self.sources.len(),
                    end == source.first_doc + source.doc_count,
                    source == tables.sources@[self.sources@[i as int] as int],
                    source.first_doc <= d <= end,
                    forall|k: u32|
                        source.first_doc <= k < d ==> #[trigger] self.documents@.contains(k),
                    dead_error(*self, *tables) == dead_sources_error(*self, *tables, i as int),
                decreases end - d,
            {
                if !contains_id(self.documents.as_slice(), d) {
                    return Err(IndexError::DeadSourceLive);
                }
                d = d + 1;
            }
            i = i + 1;
        }
        let mut k: usize = 0;
        while k < self.documents.len()
            invariant
                self.ordered(),
                k <= self.documents.len(),
                self.documents@.len() > 0 ==> self.documents@.last() < tables.documents@.len(),
                dead_error(*self, *tables) == dead_sources_error(
                    *self,
                    *tables,
                    self.sources@.len() as int,
                ),
                forall|j: int|
                    0 <= j < k ==> self.sources@.contains(
                        tables.documents@[#[trigger] self.documents@[j] as int].source_id,
                    ),
            decreases self.documents.len() - k,
        {
            assert(self.documents@[k as int] <= self.documents@.last());
            let document = &tables.documents[self.documents[k] as usize];
            if !contains_id(self.sources.as_slice(), document.source_id) {
                return Err(IndexError::DeadDocumentOrphan);
            }
            k = k + 1;
        }
        Ok(())
    }
}

proof fn lemma_sources_error_steps(t: SegmentTables, i: int, j: int)
    requires
        0 <= i <= j <= t.sources@.len(),
        sources_error(t, i) is None,
    ensures
        sources_error(t, j) is None,
        j < t.sources@.len() ==> source_error(t, j) is None,
    decreases j - i,
{
    if i < j {
        lemma_sources_error_steps(t, i + 1, j);
    }
}

proof fn lemma_docs_error_steps(t: SegmentTables, i: int, d: int, k: int, end: int)
    requires
        d <= k < end,
        docs_error(t, i, d, end) is None,
    ensures
        doc_error(t, i, k) is None,
    decreases k - d,
{
    if d < k {
        lemma_docs_error_steps(t, i, d + 1, k, end);
    }
}

proof fn lemma_docs_before_mono(sources: Seq<SourceEntry>, a: nat, b: nat)
    requires
        a <= b,
    ensures
        docs_before(sources, a) <= docs_before(sources, b),
    decreases b - a,
{
    if a < b {
        lemma_docs_before_mono(sources, a, (b - 1) as nat);
    }
}

/// In valid tables every two sources are in strict key order.
pub proof fn valid_sources_ordered(t: SegmentTables, i: int, j: int)
    requires
        table_error(t) is None,
        0 <= i < j < t.sources@.len(),
    ensures
        crate::text::text_before(t.sources@[i].key@, t.sources@[j].key@),
    decreases j - i,
{
    lemma_sources_error_steps(t, 0, j);
    if i < j - 1 {
        valid_sources_ordered(t, i, j - 1);
        crate::text::lemma_before_transitive(
            crate::text::utf8(t.sources@[i].key@),
            crate::text::utf8(t.sources@[j - 1].key@),
            crate::text::utf8(t.sources@[j].key@),
        );
    }
}

proof fn lemma_owner(t: SegmentTables, d: int, n: nat) -> (i: int)
    requires
        n <= t.sources@.len(),
        0 <= d < docs_before(t.sources@, n),
    ensures
        0 <= i < n,
        docs_before(t.sources@, i as nat) <= d < docs_before(t.sources@, (i + 1) as nat),
    decreases n,
{
    let last = (n - 1) as nat;
    if d < docs_before(t.sources@, last) {
        lemma_owner(t, d, last)
    } else {
        last as int
    }
}

/// In valid tables every document lies in the range of the source that it names, and no two
/// documents have the same key.
pub proof fn valid_documents_owned(t: SegmentTables, d: int)
    requires
        table_error(t) is None,
        0 <= d < t.documents@.len(),
    ensures
        ({
            let id = t.documents@[d].source_id;
            &&& id < t.sources@.len()
            &&& t.sources@[id as int].first_doc <= d < t.sources@[id as int].first_doc
                + t.sources@[id as int].doc_count
        }),
        forall|p: int|
            0 <= p < d ==> (#[trigger] t.documents@[p]).display_key@
                != t.documents@[d].display_key@,
{
    lemma_sources_error_steps(t, 0, t.sources@.len() as int);
    let i = lemma_owner(t, d, t.sources@.len());
    lemma_sources_error_steps(t, 0, i);
    let source = t.sources@[i];
    let start = source.first_doc as int;
    lemma_docs_error_steps(t, i, start, d, start + source.doc_count);
    assert(doc_error(t, i, d) is None);
}

proof fn lemma_coordinates_steps(
    documents: Seq<DocEntry>,
    blocks: Seq<PackBlock>,
    i: int,
    j: int,
)
    requires
        0 <= i <= j <= documents.len(),
        coordinates_error(documents, blocks, i) is None,
    ensures
        coordinates_error(documents, blocks, j) is None,
        j < documents.len() ==> coordinate_error(documents, blocks, j) is None,
    decreases j - i,
{
    if i < j {
        lemma_coordinates_steps(documents, blocks, i + 1, j);
    }
}

/// In valid tables the documents' bytes tile the decoded blocks: each document starts where the
/// one before it ends, and together they fill the blocks exactly.
pub proof fn valid_documents_tile_blocks(t: SegmentTables, d: int)
    requires
        table_error(t) is None,
        0 <= d < t.documents@.len(),
    ensures
        doc_bytes_before(t.documents@, t.documents@.len()) == bytes_before(
            t.blocks@,
            t.blocks@.len(),
        ),
        t.documents@[d].decoded_size > 0 ==> at_position(
            t.blocks@,
            t.documents@[d].first_block as nat,
            t.documents@[d].block_offset as nat,
            doc_bytes_before(t.documents@, d as nat),
        ),
{
    lemma_coordinates_steps(t.documents@, t.blocks@, 0, d);
    lemma_coordinates_steps(t.documents@, t.blocks@, 0, t.documents@.len() as int);
}

proof fn lemma_dead_steps(dead: DeadSet, t: SegmentTables, i: int, j: int)
    requires
        0 <= i <= j <= dead.sources@.len(),
        dead_sources_error(dead, t, i) is None,
    ensures
        dead_sources_error(dead, t, j) is None,
        j < dead.sources@.len() ==> dead_source_error(dead, t, j) is None,
    decreases j - i,
{
    if i < j {
        lemma_dead_steps(dead, t, i + 1, j);
    }
}

/// Over valid tables a valid dead set holds exactly the documents of its dead sources.
pub proof fn dead_documents_follow_sources(dead: DeadSet, t: SegmentTables, d: u32)
    requires
        table_error(t) is None,
        dead.ordered(),
        dead_error(dead, t) is None,
        d < t.documents@.len(),
    ensures
        dead.documents@.contains(d) <==> dead.sources@.contains(t.documents@[d as int].source_id),
{
    valid_documents_owned(t, d as int);
    let id = t.documents@[d as int].source_id;
    if dead.documents@.contains(d) {
        lemma_dead_steps(dead, t, 0, dead.sources@.len() as int);
        let k = choose|k: int| 0 <= k < dead.documents@.len() && dead.documents@[k] == d;
        assert(dead.sources@.contains(t.documents@[dead.documents@[k] as int].source_id));
    }
    if dead.sources@.contains(id) {
        let k = choose|k: int| 0 <= k < dead.sources@.len() && dead.sources@[k] == id;
        lemma_dead_steps(dead, t, 0, k);
        assert(dead_source_error(dead, t, k) is None);
    }
}

/// In valid tables a source's documents lie in the document table.
pub proof fn valid_source_range(t: SegmentTables, i: int)
    requires
        table_error(t) is None,
        0 <= i < t.sources@.len(),
    ensures
        t.sources@[i].first_doc + t.sources@[i].doc_count <= t.documents@.len(),
        t.sources@[i].first_doc == docs_before(t.sources@, i as nat),
{
    lemma_sources_error_steps(t, 0, i);
}

/// In valid tables the documents of a source name it.
pub proof fn valid_doc_source(t: SegmentTables, i: int, d: int)
    requires
        table_error(t) is None,
        0 <= i < t.sources@.len(),
        t.sources@[i].first_doc <= d < t.sources@[i].first_doc + t.sources@[i].doc_count,
    ensures
        d < t.documents@.len(),
        t.documents@[d].source_id == i,
{
    lemma_sources_error_steps(t, 0, i);
    let start = t.sources@[i].first_doc as int;
    lemma_docs_error_steps(t, i, start, d, start + t.sources@[i].doc_count);
    assert(doc_error(t, i, d) is None);
}

/// The ids of a valid dead set are ids of the tables.
pub proof fn lemma_dead_bounds(dead: DeadSet, t: SegmentTables)
    requires
        dead.ordered(),
        dead_error(dead, t) is None,
    ensures
        forall|i: u32| #[trigger] dead.sources@.contains(i) ==> i < t.sources@.len(),
        forall|d: u32| #[trigger] dead.documents@.contains(d) ==> d < t.documents@.len(),
{
    assert forall|i: u32| #[trigger] dead.sources@.contains(i) implies i < t.sources@.len() by {
        let k = choose|k: int| 0 <= k < dead.sources@.len() && dead.sources@[k] == i;
        assert(dead.sources@[k] <= dead.sources@.last());
    }
    assert forall|d: u32| #[trigger] dead.documents@.contains(d) implies d < t.documents@.len() by {
        let k = choose|k: int| 0 <= k < dead.documents@.len() && dead.documents@[k] == d;
        assert(dead.documents@[k] <= dead.documents@.last());
    }
}

} // verus!
