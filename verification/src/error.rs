//! What can be wrong with an index, a request or a pattern.

use vstd::prelude::*;

verus! {

#[derive(Debug, Clone, Copy, PartialEq, Eq, Structural)]
pub enum IndexError {
    /// A posting list claims more ids than the id space holds.
    CountExceedsDocs { count: u32, doc_count: u32 },
    /// A delta block ends before its width header.
    MissingWidth,
    /// A delta block's width is not in `1..=32`.
    InvalidWidth { width: u8 },
    /// A delta block ends inside its packed ids.
    TruncatedBlock,
    /// A delta leads past the largest id.
    DeltaOverflow,
    /// A posting id is not below the document count.
    IdOutOfBounds { id: u32 },
    /// Bytes remain after the last delta block.
    TrailingBytes { extra: usize },
    /// A posting block is not as long as its count calls for.
    BlockLength { len: usize, expected: u64 },
    /// Ids stored in a posting block do not strictly ascend.
    NotAscending,
    /// A posting offset needs more than 40 bits.
    PostingOffset { offset: u64 },
    /// A posting list holds more ids than 24 bits count.
    PostingCount { ids: usize },
    /// A posting id held in its term value is not below the id space.
    SingletonOutOfRange { offset: u64, id_space: u32 },
    /// A posting block that a query needs was not fetched.
    BlockNotFetched { offset: u64 },
    /// Segment sources are not unique and in key order.
    SourcesUnsorted,
    /// A source's documents do not follow those of the source before it.
    SourceRangeGap,
    /// A source's documents reach past the document table.
    SourceRangeBounds,
    /// A failed source has documents.
    FailedWithDocuments,
    /// A source is to be retried though it has not failed.
    RetryNotFailed,
    /// A document names another source than the one that holds it.
    WrongSource,
    /// A member document's key is not made of its source's key and its path.
    MemberKeyMismatch,
    /// A plain document's key is not its source's key.
    SourceKeyMismatch,
    /// Two documents have the same key.
    DuplicateKey,
    /// The documents of a source are not in key order.
    DocumentsUnsorted,
    /// Documents remain that no source holds.
    UnownedDocuments,
    /// A pack block has no compressed bytes.
    BlockCompressedLength,
    /// A pack block decodes to nothing or to more than a block.
    BlockDecodedLength,
    /// Pack ids skip a number or go back.
    PackIdGap,
    /// A pack block does not start where the one before it ends.
    BlockOffsetGap,
    /// A pack block's end exceeds 64 bits.
    BlockOffsetOverflow,
    /// An empty document has pack coordinates.
    EmptyDocumentCoordinates,
    /// A document does not start where the one before it ends.
    DocumentCoordinateGap,
    /// A document reaches past the last pack block.
    DocumentOutsideBlocks,
    /// Pack blocks hold bytes that no document owns.
    UnownedBlockBytes,
    /// Dead source ids are not sorted and unique.
    DeadSourcesUnsorted,
    /// Dead document ids are not sorted and unique.
    DeadDocumentsUnsorted,
    /// A dead source id is out of bounds.
    DeadSourceBounds,
    /// A dead document id is out of bounds.
    DeadDocumentBounds,
    /// A dead source's document range exceeds 32 bits.
    DeadRangeOverflow,
    /// A dead source has live documents.
    DeadSourceLive,
    /// A dead document belongs to a live source.
    DeadDocumentOrphan,
    /// There is no candidate plan.
    NoCandidatePlans,
    /// The document limit of a candidate batch is zero.
    DocumentLimit,
    /// The decoded-byte limit of a candidate batch is zero.
    DecodedByteLimit,
    /// A candidate byte span is zero.
    ByteSpan,
    /// A segment has more candidate blocks than 32 bits count.
    CandidateBlockCount,
    /// A document extent cannot be stored as a candidate range.
    DocumentExtent,
    /// A candidate block id is not below the block count.
    CandidateBlockBounds { id: u32, total: u32 },
    /// A candidate document id is not below the document count.
    CandidateDocumentBounds { id: u32, document_count: u32 },
    /// Block bases are needed for trigram candidates.
    MissingBlockBases,
    /// Table entries must be inserted in ascending order, each once.
    TableOrder,
    /// A term table is too short for its magic and footer.
    TableTruncated,
    /// A term table's footer does not end in its magic.
    TableMagic,
    /// A term table's index length exceeds 64 bits.
    TableIndexOverflow,
    /// A term table's index does not reach up to its footer.
    TableIndexGap,
    /// The tail of a term table does not hold its index.
    TableTailShort,
    /// The blocks of a term table do not follow its magic.
    TableBlockGap,
    /// A term table block ends before it starts.
    TableBlockUnderflow,
    /// A term table block is empty, cut inside an entry, or too long.
    TableBlockLength,
    /// The block index of a term table is not sorted.
    TableUnsorted,
    /// A term table's entry count does not match its blocks.
    TableEntryCount,
    /// The tail of a postings file is too short, or longer than the file.
    PostingsTruncated,
    /// A postings footer does not end in its magic.
    PostingsMagic,
    /// A postings file has another number of blocks than its data calls for.
    PostingsBlockCount,
    /// A postings table does not reach from its data to its footer.
    PostingsGap,
    /// The tail of a postings file does not hold the whole table.
    PostingsTailShort,
    /// A postings range exceeds 64 bits.
    PostingsRangeOverflow,
    /// A postings range is empty or reaches past the data.
    PostingsRangeBounds,
    /// A postings block is not the one that was written.
    PostingsBlockHash { block: usize },
    /// A document's offset lies past the end of its first block.
    BlockOffsetBounds,
    /// A block that a document reaches into holds no bytes for it.
    BlockExhausted,
    /// A pack block id is out of bounds.
    MissingPackBlock,
    /// A run of blocks reaches past the end of its pack.
    PackRangeBounds,
    /// A fetched run is not as long as its blocks.
    PackRangeLength,
    /// A compressed block is not the one that was written.
    PackBlockHash,
    /// A compressed block is not a readable frame.
    PackBlockUnreadable,
    /// A block decodes to another length than recorded.
    PackBlockDecoded,
    /// A candidate byte range is empty or reaches past its document.
    CandidateBytes { start: u64, end: u64, decoded_size: u64 },
    /// The span of a regional range is zero.
    RegionalSpan,
    /// A document range ends before it starts.
    RangeReversed,
    /// A document range reaches past the document's blocks.
    RangeIncomplete,
    /// A block that a document range needs has not been decoded.
    BlockNotDecoded { block: usize },
    /// A decoded block is shorter than a document's part of it.
    DecodedBlockShort,
    /// The newline table does not reach as far as the document.
    NewlineBlockMissing,
    /// A block is said to hold newlines and holds none.
    NewlineCount,
    /// A line number or a context size exceeds its type.
    LineOverflow,
    /// A pack builder needs a positive block size.
    PackBlockSize,
    /// A pack builder needs a positive target size.
    PackTargetSize,
    /// A block could not be compressed.
    PackCompress,
    /// A pack has more or longer blocks than its table can say.
    PackTooLarge,
    /// A block names a pack that does not exist.
    PackIdBounds,
    /// A fetch brought another number of ranges than asked for.
    PackRangeCount { fetched: usize, asked: usize },
    /// A local source is not a directory prefix.
    LocalPrefix,
    /// An S3 source has no endpoint.
    S3Endpoint,
    /// An S3 source has no bucket.
    S3Bucket,
    /// An S3 prefix neither is empty nor ends with a slash.
    S3Prefix,
    /// The index was written in another format.
    FormatVersion { found: u32, current: u32 },
    /// A segment ID is not a SHA-256 hash.
    SegmentId,
    /// A segment's blob hash is not a SHA-256 hash.
    SegmentBlobHash,
    /// A segment's term tail hash is neither empty nor a SHA-256 hash.
    SegmentTailHash,
    /// Two segments have one ID.
    SegmentDuplicate,
    /// A segment's smallest key is above its largest.
    SegmentKeyBounds,
    /// A segment's dead set has a hash without a length, or the other way round.
    SegmentDeadMeta,
    /// A segment names a pack without a hash or a length.
    SegmentPackMeta,
    /// A segment has another number of documents than its metadata says.
    SegmentDocCount,
    /// A segment has no sources.
    SegmentEmpty,
    /// A segment's sources do not span the keys that its metadata says.
    SegmentKeyMismatch,
    /// A segment has another number of packs than its metadata says.
    SegmentPackCount,
    /// A pack has no blocks.
    PackWithoutBlocks,
    /// A pack's blocks do not fill it.
    PackLength,
    /// A term has no postings.
    EmptyPosting,
    /// A term has more postings than there are documents.
    PostingCountBounds,
    /// A posting block's end cannot be said in 64 bits.
    PostingLengthOverflow,
    /// A posting block ends past the postings.
    PostingBounds,
    /// `HOLYS3_SPARSE_REMOTE_MIN` is not a byte count.
    RemoteTermsMin,
    /// A listing names a key twice.
    DuplicateListing { at: usize },
    /// The index is of another source.
    SourceMismatch,
    /// A term's gram is not as wide as the strategy's grams.
    GramWidth,
    /// A sparse term has no posting length, or a trigram term has one.
    PostingLengthPresence,
    /// The postings end inside a posting block.
    PostingsCut,
    /// A posting names a document that the segment does not have.
    PostingOutsideSegment,
    /// A document has no place in the merged segment.
    RemapBounds,
    /// Two segments together have more documents than a segment can hold.
    SegmentTooLarge,
    /// The segment document cap is zero.
    SegmentCap,
    /// A segment would have no objects.
    EmptySegment,
    /// One object has more documents than a segment may.
    SourceTooLarge,
    /// A match window has no size.
    WindowSize,
    /// A match window's range cannot be said in 64 bits.
    WindowOverflow,
    /// The bytes fetched for a match window do not reach it.
    WindowSource,
    /// A whole document is not as long as its entry says.
    DocumentLength { bytes: u64, decoded_size: u64 },
    /// A streamed match may be longer than the chunks overlap.
    StreamOverlap,
    /// The number of candidates overflows.
    CandidateTotal,
    /// The number of hits overflows.
    HitTotal,
    /// The number of fetched bytes overflows.
    FetchedTotal,
    /// The number of regionally read documents overflows.
    RegionalTotal,
    /// The number of documents read whole overflows.
    WholeTotal,
    /// The number of decoded bytes overflows.
    DecodedTotal,
    /// The pattern is not a regular expression that can be compiled.
    BadPattern,
    /// The index changed after candidates had been searched.
    IndexChangedLate,
    /// A document's blocks end before it does.
    DocumentTruncated,
    /// A candidate batch has no size.
    BatchSize,
    /// A candidate does not say where it lies in the index.
    AddressMissing,
    /// A candidate names a segment that the index does not have.
    AddressSegment,
    /// A candidate names a document that its segment does not have.
    AddressDocument,
    /// A candidate's key is not that of its index entry.
    AddressKey,
    /// A fetch brought another number of posting blocks than asked for.
    PostingsFetchCount { fetched: usize, asked: usize },
    /// A sparse term table is too short for its footer.
    TermsTooShort,
    /// The footer that was read of a sparse term table is too short.
    TermsFooterShort,
    /// A sparse term table says that its index lies past its end.
    TermsIndexBounds,
    /// The tail that was read of a sparse term table is too short.
    TermsTailShort,
    /// The tail of a sparse term table is not the one that was written.
    TermsTailHash,
    /// A fetch brought another number of term blocks than asked for.
    TermsFetchCount { fetched: usize, asked: usize },
    /// A term block is not the one that was written.
    TermBlockHash,
    /// A term block that a query needs was not fetched.
    TermBlockMissing,
    /// A gram was looked up that the query does not ask for.
    TermNotCollected,
    /// Only trigram dictionaries can be sharded.
    ShardedStrategy,
    /// A trigram term is not three bytes long.
    TrigramLength,
    /// Terms must be inserted in ascending order, each once.
    TermOrder,
    /// A sparse term's key is not an eight-byte hash.
    SparseKeyLength,
    /// A sharded dictionary is too short for its footer.
    ShardFooter,
    /// The shards of a dictionary do not fill it in order.
    ShardOffsets,
    /// The bytes of a dictionary, or of a shard of it, are no map.
    NotAMap,
    /// A shard has a key that is not the rest of a trigram.
    SuffixLength,
    /// A term block reaches past its dictionary.
    TermBlockBounds,
    /// A sample holds as much as it may.
    SampleFull,
    /// No random bytes could be had for a segment ID.
    SegmentIdSource,
    /// A blob is not as long as its metadata says.
    BlobLength,
    /// A blob is not the one that was written.
    BlobHash,
    /// A local file is not what was listed.
    StaleSource,
    /// Local files are read by no one.
    LocalConcurrency,
    /// Two candidates disagree about their source.
    SourceMetadata,
    /// A fetch brought an object that was not asked for.
    FetchOutOfRange { at: usize },
    /// A fetch brought an object twice.
    FetchTwice { at: usize },
    /// A segment would have more documents than it may.
    DocumentCap,
    /// A decoder began a document before it finished the last.
    DecoderBegan,
    /// A decoder wrote before it began a document.
    DecoderIdle,
    /// A decoder finished a document that it did not begin.
    DecoderUnbegun,
}

} // verus!
