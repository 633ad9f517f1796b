//! What a decoder hands over of an object, and how its documents enter a segment's packs.

use vstd::prelude::*;

use crate::error::IndexError;
use crate::format::DocEntry;
use crate::lines::measure_lines;
use crate::pack::PackSlice;
use crate::pack_build::PackBuilder;
use crate::ranking::{rank_sorted, Ranked};
use crate::text::{joined, text_less};

verus! {

/// A document as a decoder hands it over.
#[derive(Debug)]
pub struct DecodedDocument {
    pub display_key: String,
    pub member_path: Option<String>,
    pub bytes: Vec<u8>,
}

impl Ranked for DecodedDocument {
    /// By key.
    open spec fn before(&self, other: &DecodedDocument) -> bool {
        crate::text::text_before(self.display_key@, other.display_key@)
    }

    proof fn order(a: &DecodedDocument, b: &DecodedDocument, c: &DecodedDocument) {
        crate::ranking::lemma_text_order(a.display_key@, b.display_key@, c.display_key@);
    }

    fn ranks_before(&self, other: &DecodedDocument) -> (before: bool) {
        text_less(self.display_key.as_str(), other.display_key.as_str())
    }
}

/// The key under which a document of an object is shown.
pub fn display_key(source: &str, member: Option<&str>) -> (key: String)
    ensures
        key@ == match member {
            Some(member) => crate::format::member_key(source@, member@),
            None => source@,
        },
{
    match member {
        Some(member) => joined(joined(source, "!/").as_str(), member),
        None => String::from_str(source),
    }
}

/// What a document is called: its key, and its path in an archive.
#[derive(Debug)]
pub struct DocumentName {
    pub display_key: String,
    pub member_path: Option<String>,
}

/// What a decoder fills: documents that are begun, written piece by piece and finished.
#[derive(Debug)]
pub struct DocumentSink {
    /// How many documents the object may have.
    pub limit: Option<usize>,
    /// The document being written.
    pub current: Option<DocumentName>,
    /// What was written of it.
    pub bytes: Vec<u8>,
    pub documents: Vec<DecodedDocument>,
}

impl DocumentSink {
    /// Nothing is written but of a document, and there are no more documents than there may be.
    pub open spec fn wf(&self) -> bool {
        &&& self.current is None ==> self.bytes@.len() == 0
        &&& self.limit is Some ==> self.documents@.len() + (if self.current is Some {
            1int
        } else {
            0
        }) <= self.limit->0
    }

    /// A sink for an object of at most `limit` documents.
    pub fn new(limit: Option<usize>) -> (sink: DocumentSink)
        ensures
            sink.wf(),
            sink.limit == limit,
            sink.current is None,
            sink.documents@.len() == 0,
    {
        DocumentSink { limit, current: None, bytes: Vec::new(), documents: Vec::new() }
    }

    /// What keeps a document from being begun.
    pub open spec fn begin_error(&self) -> Option<IndexError> {
        if self.current is Some {
            Some(IndexError::DecoderBegan)
        } else if self.limit is Some && self.limit->0 <= self.documents@.len() {
            Some(IndexError::DocumentCap)
        } else {
            None
        }
    }

    /// Begin a document.
    pub fn begin(&mut self, name: DocumentName) -> (begun: Result<(), IndexError>)
        requires
            old(self).wf(),
        ensures
            final(self).wf(),
            final(self).limit == old(self).limit,
            final(self).bytes@ == old(self).bytes@,
            final(self).documents@ == old(self).documents@,
            match begun {
                Ok(_) => old(self).begin_error() is None && final(self).current == Some(name),
                Err(e) => old(self).begin_error() == Some(e) && final(self).current == old(self).current,
            },
    {
        if self.current.is_some() {
            return Err(IndexError::DecoderBegan);
        }
        if let Some(limit) = self.limit {
            if self.documents.len() >= limit {
                return Err(IndexError::DocumentCap);
            }
        }
        self.current = Some(name);
        Ok(())
    }

    /// Write more of the document that was begun.
    pub fn write(&mut self, bytes: &[u8]) -> (written: Result<(), IndexError>)
        requires
            old(self).wf(),
        ensures
            final(self).wf(),
            final(self).limit == old(self).limit,
            final(self).current == old(self).current,
            final(self).documents@ == old(self).documents@,
            match written {
                Ok(_) => old(self).current is Some && final(self).bytes@ == old(self).bytes@
                    + bytes@,
                Err(e) => old(self).current is None && e == IndexError::DecoderIdle && final(self).bytes@ == old(self).bytes@,
            },
    {
        if self.current.is_none() {
            return Err(IndexError::DecoderIdle);
        }
        self.bytes.extend_from_slice(bytes);
        assert(self.bytes@ =~= old(self).bytes@ + bytes@);
        Ok(())
    }

    /// Finish the document that was begun.
    pub fn finish(&mut self) -> (finished: Result<(), IndexError>)
        requires
            old(self).wf(),
        ensures
            final(self).wf(),
            final(self).limit == old(self).limit,
            match finished {
                Ok(_) => {
                    &&& old(self).current is Some
                    &&& final(self).current is None
                    &&& final(self).documents@.len() == old(self).documents@.len() + 1
                    &&& final(self).documents@.drop_last() == old(self).documents@
                    &&& final(self).documents@.last().display_key == old(self).current->0.display_key
                    &&& final(self).documents@.last().member_path == old(self).current->0.member_path
                    &&& final(self).documents@.last().bytes@ == old(self).bytes@
                },
                Err(e) => {
                    &&& old(self).current is None
                    &&& e == IndexError::DecoderUnbegun
                    &&& *final(self) == *old(self)
                },
            },
    {
        match self.current.take() {
            None => Err(IndexError::DecoderUnbegun),
            Some(name) => {
                let mut bytes: Vec<u8> = Vec::new();
                bytes.append(&mut self.bytes);
                assert(bytes@ =~= old(self).bytes@);
                self.documents.push(
                    DecodedDocument {
                        display_key: name.display_key,
                        member_path: name.member_path,
                        bytes,
                    },
                );
                assert(self.documents@.drop_last() =~= old(self).documents@);
                Ok(())
            },
        }
    }
}

/// An object's documents by key, the order in which a segment holds them.
pub fn sort_documents(documents: Vec<DecodedDocument>) -> (sorted: Vec<DecodedDocument>)
    ensures
        sorted@ == crate::ranking::rank_sort(documents@),
        crate::ranking::in_rank_order(sorted@),
        sorted@.to_multiset() == documents@.to_multiset(),
{
    proof {
        crate::ranking::ranking_orders_and_keeps(documents@);
    }
    rank_sorted(documents)
}

/// The first `n` documents, one after the other.
pub open spec fn document_bytes(documents: Seq<DecodedDocument>, n: nat) -> Seq<u8>
    decreases n,
{
    if n == 0 {
        Seq::empty()
    } else {
        document_bytes(documents, (n - 1) as nat) + documents[n - 1].bytes@
    }
}

/// Where an entry says that its document starts.
pub open spec fn entry_slice(entry: DocEntry) -> PackSlice {
    PackSlice { first_block: entry.first_block, block_offset: entry.block_offset }
}

/// The entry names the document, its size and its lines.
pub open spec fn entry_names(
    entry: DocEntry,
    document: DecodedDocument,
    source_id: u32,
) -> bool {
    &&& entry.display_key@ == document.display_key@
    &&& entry.source_id == source_id
    &&& entry.member_path == document.member_path
    &&& entry.decoded_size == document.bytes@.len()
    &&& entry.max_line_len == crate::lines::length_field(
        crate::lines::longest_line(document.bytes@, document.bytes@.len() as int),
    )
    &&& entry.block_newlines@.len() == (document.bytes@.len() + 131071) / 131072
    &&& crate::lines::table_accurate(document.bytes@, entry.block_newlines@)
}

/// The document starts at byte `position` of what was written; an empty one has no place.
pub open spec fn entry_placed(builder: PackBuilder, entry: DocEntry, position: nat) -> bool {
    if entry.decoded_size == 0 {
        entry.first_block == 0 && entry.block_offset == 0
    } else {
        builder.placed(entry_slice(entry), position)
    }
}

/// What keeps documents, from document `i` on, from being packed behind `written`: the first
/// fault of one of them.
pub open spec fn documents_fault(
    written: Seq<u8>,
    documents: Seq<DecodedDocument>,
    block_bytes: nat,
    pack_bytes: u64,
    i: int,
) -> Option<IndexError>
    decreases documents.len() - i,
{
    if i >= documents.len() {
        None
    } else {
        match crate::pack_build::append_fault(
            written + document_bytes(documents, i as nat),
            documents[i].bytes@,
            block_bytes,
            pack_bytes,
        ) {
            Some(e) => Some(e),
            None => documents_fault(written, documents, block_bytes, pack_bytes, i + 1),
        }
    }
}

/// Pack an object's documents, and say where each starts and what lines it has.
pub fn pack_documents(
    builder: &mut PackBuilder,
    source_id: u32,
    documents: &[DecodedDocument],
) -> (entries: Result<Vec<DocEntry>, IndexError>)
    requires
        old(builder).wf(),
    ensures
        final(builder).block_bytes == old(builder).block_bytes,
        final(builder).pack_bytes == old(builder).pack_bytes,
        match entries {
            Ok(entries) => {
                &&& documents_fault(
                    old(builder).written(),
                    documents@,
                    old(builder).block_bytes as nat,
                    old(builder).pack_bytes,
                    0,
                ) is None
                &&& final(builder).wf()
                &&& final(builder).written() == old(builder).written() + document_bytes(
                    documents@,
                    documents@.len(),
                )
                &&& forall|other: PackSlice, position: nat|
                    old(builder).placed(other, position) ==> #[trigger] final(builder).placed(
                        other,
                        position,
                    )
                &&& entries@.len() == documents@.len()
                &&& forall|i: int|
                    0 <= i < entries@.len() ==> entry_names(
                        #[trigger] entries@[i],
                        documents@[i],
                        source_id,
                    ) && entry_placed(
                        *final(builder),
                        entries@[i],
                        old(builder).written().len() + document_bytes(documents@, i as nat).len(),
                    )
            },
            Err(e) => documents_fault(
                old(builder).written(),
                documents@,
                old(builder).block_bytes as nat,
                old(builder).pack_bytes,
                0,
            ) == Some(e),
        },
{
    let mut entries: Vec<DocEntry> = Vec::new();
    let mut i: usize = 0;
    assert(builder.written() =~= old(builder).written() + document_bytes(documents@, 0));
    while i < documents.len()
        invariant
            i <= documents@.len(),
            builder.wf(),
            builder.block_bytes == old(builder).block_bytes,
            builder.pack_bytes == old(builder).pack_bytes,
            builder.written() == old(builder).written() + document_bytes(documents@, i as nat),
            forall|other: PackSlice, position: nat|
                old(builder).placed(other, position) ==> #[trigger] builder.placed(other, position),
            documents_fault(
                old(builder).written(),
                documents@,
                old(builder).block_bytes as nat,
                old(builder).pack_bytes,
                0,
            ) == documents_fault(
                old(builder).written(),
                documents@,
                old(builder).block_bytes as nat,
                old(builder).pack_bytes,
                i as int,
            ),
            entries@.len() == i,
            forall|k: int|
                0 <= k < i ==> entry_names(#[trigger] entries@[k], documents@[k], source_id)
                    && entry_placed(
                    *builder,
                    entries@[k],
                    old(builder).written().len() + document_bytes(documents@, k as nat).len(),
                ),
        decreases documents@.len() - i,
    {
        let ghost before = *builder;
        let ghost held = entries@;
        let document = &documents[i];
        let slice = match builder.append(document.bytes.as_slice()) {
            Ok(slice) => slice,
            Err(e) => return Err(e),
        };
        let member_path = match &document.member_path {
            Some(member) => Some(member.clone()),
            None => None,
        };
        let (max_line_len, block_newlines): (u32, Vec<u32>) = measure_lines(
            document.bytes.as_slice(),
        );
        entries.push(
            DocEntry {
                display_key: document.display_key.clone(),
                source_id,
                member_path,
                decoded_size: document.bytes.len() as u64,
                first_block: slice.first_block,
                block_offset: slice.block_offset,
                max_line_len,
                block_newlines,
            },
        );
        proof {
            assert(builder.written() =~= old(builder).written() + document_bytes(
                documents@,
                (i + 1) as nat,
            ));
            assert forall|k: int| 0 <= k < i + 1 implies entry_names(
                #[trigger] entries@[k],
                documents@[k],
                source_id,
            ) && entry_placed(
                *builder,
                entries@[k],
                old(builder).written().len() + document_bytes(documents@, k as nat).len(),
            ) by {
                if k < i {
                    assert(entries@[k] == held[k]);
                    if held[k].decoded_size > 0 {
                        assert(before.placed(
                            entry_slice(held[k]),
                            old(builder).written().len() + document_bytes(
                                documents@,
                                k as nat,
                            ).len(),
                        ));
                    }
                } else {
                    assert(entry_slice(entries@[k]) == slice);
                }
            }
        }
        i = i + 1;
    }
    Ok(entries)
}

/// Every document starts where those before it end, and nothing else was written.
pub open spec fn documents_tile(builder: PackBuilder, documents: Seq<DocEntry>) -> bool {
    &&& builder.written().len() == crate::format::doc_bytes_before(documents, documents.len())
    &&& forall|i: int|
        0 <= i < documents.len() ==> entry_placed(
            builder,
            #[trigger] documents[i],
            crate::format::doc_bytes_before(documents, i as nat),
        )
}

proof fn lemma_doc_bytes_prefix(short: Seq<DocEntry>, long: Seq<DocEntry>, n: nat)
    requires
        n <= short.len() <= long.len(),
        long.take(short.len() as int) == short,
    ensures
        crate::format::doc_bytes_before(long, n) == crate::format::doc_bytes_before(short, n),
    decreases n,
{
    if n > 0 {
        lemma_doc_bytes_prefix(short, long, (n - 1) as nat);
        assert(long.take(short.len() as int)[n - 1] == long[n - 1]);
    }
}

proof fn lemma_doc_bytes_more(
    held: Seq<DocEntry>,
    more: Seq<DocEntry>,
    documents: Seq<DecodedDocument>,
    source_id: u32,
    n: nat,
)
    requires
        n <= more.len(),
        more.len() == documents.len(),
        forall|i: int|
            0 <= i < more.len() ==> entry_names(#[trigger] more[i], documents[i], source_id),
    ensures
        crate::format::doc_bytes_before(held + more, held.len() + n)
            == crate::format::doc_bytes_before(held, held.len()) + document_bytes(
            documents,
            n,
        ).len(),
    decreases n,
{
    if n == 0 {
        assert((held + more).take(held.len() as int) =~= held);
        lemma_doc_bytes_prefix(held, held + more, held.len());
    } else {
        lemma_doc_bytes_more(held, more, documents, source_id, (n - 1) as nat);
        assert((held + more)[held.len() + n - 1] == more[n - 1]);
        assert(entry_names(more[n - 1], documents[n - 1], source_id));
    }
}

/// Packing an object's documents behind those that a segment holds keeps the segment's documents
/// end to end.
pub proof fn packed_documents_tile(
    before: PackBuilder,
    after: PackBuilder,
    held: Seq<DocEntry>,
    more: Seq<DocEntry>,
    documents: Seq<DecodedDocument>,
    source_id: u32,
)
    requires
        documents_tile(before, held),
        after.written() == before.written() + document_bytes(documents, documents.len()),
        forall|other: PackSlice, position: nat|
            before.placed(other, position) ==> #[trigger] after.placed(other, position),
        more.len() == documents.len(),
        forall|i: int|
            0 <= i < more.len() ==> entry_names(#[trigger] more[i], documents[i], source_id)
                && entry_placed(
                after,
                more[i],
                before.written().len() + document_bytes(documents, i as nat).len(),
            ),
    ensures
        documents_tile(after, held + more),
{
    let all = held + more;
    lemma_doc_bytes_more(held, more, documents, source_id, more.len());
    assert forall|i: int| 0 <= i < all.len() implies entry_placed(
        after,
        #[trigger] all[i],
        crate::format::doc_bytes_before(all, i as nat),
    ) by {
        if i < held.len() {
            assert(all[i] == held[i]);
            assert(all.take(held.len() as int) =~= held);
            lemma_doc_bytes_prefix(held, all, i as nat);
            assert(entry_placed(
                before,
                held[i],
                crate::format::doc_bytes_before(held, i as nat),
            ));
            if held[i].decoded_size > 0 {
                assert(before.placed(
                    entry_slice(held[i]),
                    crate::format::doc_bytes_before(held, i as nat),
                ));
            }
        } else {
            let k = i - held.len();
            assert(all[i] == more[k]);
            lemma_doc_bytes_more(held, more, documents, source_id, k as nat);
        }
    }
}

/// A segment whose sources and documents are valid, and whose documents were packed end to end,
/// passes every check of its tables once the packs are finished and their blocks entered.
pub proof fn built_tables_validate(
    builder: PackBuilder,
    packs: Seq<Seq<u8>>,
    filled: crate::format::SegmentTables,
    tables: crate::format::SegmentTables,
)
    requires
        builder.block_bytes <= crate::format::PACK_BLOCK_BYTES,
        documents_tile(builder, filled.documents@),
        crate::format::sources_error(filled, 0) is None,
        tables.sources@ == filled.sources@,
        tables.documents@ == filled.documents@,
        forall|p: int| 0 <= p < packs.len() ==> (#[trigger] packs[p]).len() <= u64::MAX,
        crate::pack_build::blocks_stored(packs, tables.blocks@, builder.block_bytes as int),
        crate::pack_build::stored(packs, tables.blocks@, tables.blocks@.len())
            == builder.written(),
        forall|slice: PackSlice, position: nat|
            #[trigger] builder.placed(slice, position) ==> crate::format::at_position(
                tables.blocks@,
                slice.first_block as nat,
                slice.block_offset as nat,
                position,
            ),
    ensures
        crate::format::table_error(tables) is None,
{
    lemma_sources_same(filled, tables, 0);
    crate::pack_build::built_blocks_validate(
        packs,
        tables.blocks@,
        builder.block_bytes as int,
        0,
    );
    lemma_tiled_documents_validate(builder, packs, tables.blocks@, tables.documents@, 0);
}

proof fn lemma_sources_same(a: crate::format::SegmentTables, b: crate::format::SegmentTables, i: int)
    requires
        0 <= i <= a.sources@.len(),
        a.sources@ == b.sources@,
        a.documents@ == b.documents@,
    ensures
        crate::format::sources_error(a, i) == crate::format::sources_error(b, i),
    decreases a.sources@.len() - i,
{
    if i < a.sources@.len() {
        lemma_sources_same(a, b, i + 1);
        let source = a.sources@[i];
        lemma_docs_same(
            a,
            b,
            i,
            source.first_doc as int,
            source.first_doc + source.doc_count,
        );
    }
}

proof fn lemma_docs_same(a: crate::format::SegmentTables, b: crate::format::SegmentTables, i: int, d: int, end: int)
    requires
        a.sources@ == b.sources@,
        a.documents@ == b.documents@,
    ensures
        crate::format::docs_error(a, i, d, end) == crate::format::docs_error(b, i, d, end),
    decreases end - d,
{
    if d < end {
        lemma_docs_same(a, b, i, d + 1, end);
    }
}

proof fn lemma_tiled_documents_validate(
    builder: PackBuilder,
    packs: Seq<Seq<u8>>,
    blocks: Seq<crate::format::PackBlock>,
    documents: Seq<DocEntry>,
    i: int,
)
    requires
        documents_tile(builder, documents),
        crate::pack_build::blocks_stored(packs, blocks, builder.block_bytes as int),
        crate::pack_build::stored(packs, blocks, blocks.len()) == builder.written(),
        forall|slice: PackSlice, position: nat|
            #[trigger] builder.placed(slice, position) ==> crate::format::at_position(
                blocks,
                slice.first_block as nat,
                slice.block_offset as nat,
                position,
            ),
        0 <= i <= documents.len(),
    ensures
        crate::format::coordinates_error(documents, blocks, i) is None,
    decreases documents.len() - i,
{
    crate::pack_build::lemma_stored_len(
        packs,
        blocks,
        builder.block_bytes as int,
        blocks.len(),
    );
    if i < documents.len() {
        assert(entry_placed(
            builder,
            documents[i],
            crate::format::doc_bytes_before(documents, i as nat),
        ));
        if documents[i].decoded_size > 0 {
            assert(builder.placed(
                entry_slice(documents[i]),
                crate::format::doc_bytes_before(documents, i as nat),
            ));
        }
        lemma_doc_bytes_grow(documents, (i + 1) as nat, documents.len());
        lemma_tiled_documents_validate(builder, packs, blocks, documents, i + 1);
    }
}

proof fn lemma_doc_bytes_grow(documents: Seq<DocEntry>, a: nat, b: nat)
    requires
        a <= b,
    ensures
        crate::format::doc_bytes_before(documents, a) <= crate::format::doc_bytes_before(
            documents,
            b,
        ),
    decreases b - a,
{
    if a < b {
        lemma_doc_bytes_grow(documents, a, (b - 1) as nat);
    }
}

} // verus!
