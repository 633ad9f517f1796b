//! What errors say.

use vstd::prelude::*;

use crate::error::IndexError;
use crate::text::decimal;
use crate::text::joined;

verus! {

/// `head`, a number and `tail`.
fn with_number(head: &str, number: u64, tail: &str) -> (text: String)
    ensures
        text@ == head@ + crate::text::decimal_text(number as nat) + tail@,
{
    joined(joined(head, decimal(number).as_str()).as_str(), tail)
}

impl IndexError {
    /// What the error says.
    pub open spec fn text(self) -> Seq<char> {
        match self {
            IndexError::CountExceedsDocs { count, doc_count } => "posting count "@ + crate::text::decimal_text(count as nat) + " exceeds doc count "@ + crate::text::decimal_text(doc_count as nat) + ""@,
            IndexError::MissingWidth => "posting block ends before its width header"@,
            IndexError::InvalidWidth { width } => "posting block width "@ + crate::text::decimal_text(width as nat) + " is invalid"@,
            IndexError::TruncatedBlock => "posting block ends inside its packed ids"@,
            IndexError::DeltaOverflow => "posting delta overflows the id space"@,
            IndexError::IdOutOfBounds { id } => "posting id "@ + crate::text::decimal_text(id as nat) + " is out of bounds"@,
            IndexError::TrailingBytes { extra } => "posting list has "@ + crate::text::decimal_text(extra as nat) + " trailing bytes"@,
            IndexError::BlockLength { len, expected } => "posting block is "@ + crate::text::decimal_text(len as nat) + " bytes, expected "@ + crate::text::decimal_text(expected as nat) + ""@,
            IndexError::NotAscending => "posting block ids are not strictly ascending"@,
            IndexError::PostingOffset { offset } => "postings offset "@ + crate::text::decimal_text(offset as nat) + " exceeds the 1 TiB format limit"@,
            IndexError::PostingCount { ids } => "posting list of "@ + crate::text::decimal_text(ids as nat) + " docs exceeds the format limit"@,
            IndexError::SingletonOutOfRange { offset, id_space } => "singleton posting id "@ + crate::text::decimal_text(offset as nat) + " is outside 0.."@ + crate::text::decimal_text(id_space as nat) + ""@,
            IndexError::BlockNotFetched { offset } => "posting block at offset "@ + crate::text::decimal_text(offset as nat) + " was not fetched"@,
            IndexError::SourcesUnsorted => "segment sources are not unique and sorted"@,
            IndexError::SourceRangeGap => "source document ranges are not contiguous"@,
            IndexError::SourceRangeBounds => "source document range is out of bounds"@,
            IndexError::FailedWithDocuments => "failed source contains documents"@,
            IndexError::RetryNotFailed => "retryable source is not failed"@,
            IndexError::WrongSource => "document points to the wrong source"@,
            IndexError::MemberKeyMismatch => "document display key does not match its member path"@,
            IndexError::SourceKeyMismatch => "source document display key does not match its source"@,
            IndexError::DuplicateKey => "duplicate document display key"@,
            IndexError::DocumentsUnsorted => "source documents are not sorted"@,
            IndexError::UnownedDocuments => "unowned documents remain"@,
            IndexError::BlockCompressedLength => "pack block compressed length is zero"@,
            IndexError::BlockDecodedLength => "pack block decoded length is invalid"@,
            IndexError::PackIdGap => "pack IDs are not contiguous"@,
            IndexError::BlockOffsetGap => "pack blocks are not contiguous"@,
            IndexError::BlockOffsetOverflow => "pack block offsets overflow"@,
            IndexError::EmptyDocumentCoordinates => "empty document has pack coordinates"@,
            IndexError::DocumentCoordinateGap => "document pack coordinates are not contiguous"@,
            IndexError::DocumentOutsideBlocks => "document points outside pack blocks"@,
            IndexError::UnownedBlockBytes => "unowned decoded bytes remain in pack blocks"@,
            IndexError::DeadSourcesUnsorted => "dead source IDs are not sorted and unique"@,
            IndexError::DeadDocumentsUnsorted => "dead document IDs are not sorted and unique"@,
            IndexError::DeadSourceBounds => "dead source ID is out of bounds"@,
            IndexError::DeadDocumentBounds => "dead document ID is out of bounds"@,
            IndexError::DeadRangeOverflow => "dead source document range overflows"@,
            IndexError::DeadSourceLive => "dead source has live documents"@,
            IndexError::DeadDocumentOrphan => "dead document belongs to a live source"@,
            IndexError::NoCandidatePlans => "candidate plans must not be empty"@,
            IndexError::DocumentLimit => "candidate document batch limit must be positive"@,
            IndexError::DecodedByteLimit => "candidate decoded-byte batch limit must be positive"@,
            IndexError::ByteSpan => "candidate byte span must be positive"@,
            IndexError::CandidateBlockCount => "segment candidate block count overflows u32"@,
            IndexError::DocumentExtent => "document extent cannot be stored as a candidate range"@,
            IndexError::CandidateBlockBounds { id, total } => "candidate block "@ + crate::text::decimal_text(id as nat) + " is outside 0.."@ + crate::text::decimal_text(total as nat) + ""@,
            IndexError::CandidateDocumentBounds { id, document_count } => "candidate document "@ + crate::text::decimal_text(id as nat) + " is outside 0.."@ + crate::text::decimal_text(document_count as nat) + ""@,
            IndexError::MissingBlockBases => "trigram candidate block bases are missing"@,
            IndexError::TableOrder => "sparse table inserts must be ascending and unique"@,
            IndexError::TableTruncated => "sparse table is truncated"@,
            IndexError::TableMagic => "sparse table footer magic mismatch"@,
            IndexError::TableIndexOverflow => "sparse table index length overflows"@,
            IndexError::TableIndexGap => "sparse table index does not abut the footer"@,
            IndexError::TableTailShort => "sparse table tail does not include the index"@,
            IndexError::TableBlockGap => "sparse table blocks are not contiguous"@,
            IndexError::TableBlockUnderflow => "sparse table block ends before it starts"@,
            IndexError::TableBlockLength => "sparse table block length is invalid"@,
            IndexError::TableUnsorted => "sparse table block index is not sorted"@,
            IndexError::TableEntryCount => "sparse table entry count does not match its blocks"@,
            IndexError::PostingsTruncated => "postings table tail is truncated"@,
            IndexError::PostingsMagic => "postings table footer magic mismatch"@,
            IndexError::PostingsBlockCount => "postings table block count does not match its data length"@,
            IndexError::PostingsGap => "postings table does not abut its data region"@,
            IndexError::PostingsTailShort => "postings table tail does not include the full table"@,
            IndexError::PostingsRangeOverflow => "postings range overflows"@,
            IndexError::PostingsRangeBounds => "postings range is outside the data region"@,
            IndexError::PostingsBlockHash { block } => "postings block "@ + crate::text::decimal_text(block as nat) + " failed verification"@,
            IndexError::BlockOffsetBounds => "document block offset is out of bounds"@,
            IndexError::BlockExhausted => "document block has no available bytes"@,
            IndexError::MissingPackBlock => "document points outside pack blocks"@,
            IndexError::PackRangeBounds => "pack range is out of bounds"@,
            IndexError::PackRangeLength => "pack range length mismatch"@,
            IndexError::PackBlockHash => "pack block hash mismatch"@,
            IndexError::PackBlockUnreadable => "pack block is not a readable frame"@,
            IndexError::PackBlockDecoded => "pack block decoded length mismatch"@,
            IndexError::CandidateBytes { start, end, decoded_size } => "candidate byte range "@ + crate::text::decimal_text(start as nat) + ".."@ + crate::text::decimal_text(end as nat) + " is outside a "@ + crate::text::decimal_text(decoded_size as nat) + "-byte document"@,
            IndexError::RegionalSpan => "regional span must be positive"@,
            IndexError::RangeReversed => "document range is invalid"@,
            IndexError::RangeIncomplete => "document range is incomplete"@,
            IndexError::BlockNotDecoded { block } => "decoded pack block "@ + crate::text::decimal_text(block as nat) + " is missing"@,
            IndexError::DecodedBlockShort => "document block range is out of bounds"@,
            IndexError::NewlineBlockMissing => "document newline block is missing"@,
            IndexError::NewlineCount => "document newline count is inconsistent"@,
            IndexError::LineOverflow => "document line number overflows"@,
            IndexError::PackBlockSize => "pack block size must be positive"@,
            IndexError::PackTargetSize => "pack target size must be positive"@,
            IndexError::PackCompress => "pack block could not be compressed"@,
            IndexError::PackTooLarge => "pack length overflows"@,
            IndexError::PackIdBounds => "pack ID is out of bounds"@,
            IndexError::PackRangeCount { fetched, asked } => "get_ranges returned "@ + crate::text::decimal_text(fetched as nat) + " blocks for "@ + crate::text::decimal_text(asked as nat) + " ranges"@,
            IndexError::LocalPrefix => "local source identity must be a non-empty directory prefix"@,
            IndexError::S3Endpoint => "S3 source endpoint is empty"@,
            IndexError::S3Bucket => "S3 source bucket is empty"@,
            IndexError::S3Prefix => "S3 source prefix must be empty or end with /"@,
            IndexError::FormatVersion { found, current } => "index format "@ + crate::text::decimal_text(found as nat) + " is not the current "@ + crate::text::decimal_text(current as nat) + ""@,
            IndexError::SegmentId => "segment ID is not a SHA-256 hash"@,
            IndexError::SegmentBlobHash => "segment blob hash is not a SHA-256 hash"@,
            IndexError::SegmentTailHash => "segment term tail hash is invalid"@,
            IndexError::SegmentDuplicate => "segment ID is duplicated"@,
            IndexError::SegmentKeyBounds => "segment key bounds are reversed"@,
            IndexError::SegmentDeadMeta => "segment dead-set metadata is invalid"@,
            IndexError::SegmentPackMeta => "segment pack metadata is invalid"@,
            IndexError::SegmentDocCount => "segment document count does not match its metadata"@,
            IndexError::SegmentEmpty => "segment has no sources"@,
            IndexError::SegmentKeyMismatch => "segment key bounds do not match its source table"@,
            IndexError::SegmentPackCount => "segment pack count does not match its metadata"@,
            IndexError::PackWithoutBlocks => "segment pack has no blocks"@,
            IndexError::PackLength => "segment pack length does not match its blocks"@,
            IndexError::EmptyPosting => "term map contains an empty posting"@,
            IndexError::PostingCountBounds => "term map posting count exceeds its segment document count"@,
            IndexError::PostingLengthOverflow => "term map posting length overflows"@,
            IndexError::PostingBounds => "term map posting extends beyond postings.bin"@,
            IndexError::RemoteTermsMin => "HOLYS3_SPARSE_REMOTE_MIN is not a byte count"@,
            IndexError::DuplicateListing { at } => "duplicate listing key at "@ + crate::text::decimal_text(at as nat) + ""@,
            IndexError::SourceMismatch => "index was built for another source; use --rebuild to replace it"@,
            IndexError::GramWidth => "term map gram width does not match the index strategy"@,
            IndexError::PostingLengthPresence => "sparse entries must carry a posting length"@,
            IndexError::PostingsCut => "truncated postings.bin during merge"@,
            IndexError::PostingOutsideSegment => "posting ID is outside its segment"@,
            IndexError::RemapBounds => "remapped document ID is out of bounds"@,
            IndexError::SegmentTooLarge => "segment document count overflows"@,
            IndexError::SegmentCap => "segment document cap must be greater than 0"@,
            IndexError::EmptySegment => "refusing to build an empty segment shard"@,
            IndexError::SourceTooLarge => "source expands beyond the segment cap"@,
            IndexError::WindowSize => "match window must be greater than 0"@,
            IndexError::WindowOverflow => "match window range overflows"@,
            IndexError::WindowSource => "match window source is too short"@,
            IndexError::DocumentLength { bytes, decoded_size } => "decoded document is "@ + crate::text::decimal_text(bytes as nat) + " bytes, expected "@ + crate::text::decimal_text(decoded_size as nat) + ""@,
            IndexError::StreamOverlap => "streaming regex overlap exceeds its limit"@,
            IndexError::CandidateTotal => "candidate count overflows usize"@,
            IndexError::HitTotal => "hit count overflows usize"@,
            IndexError::FetchedTotal => "fetched byte count overflows usize"@,
            IndexError::RegionalTotal => "regional document count overflows usize"@,
            IndexError::WholeTotal => "whole document count overflows usize"@,
            IndexError::DecodedTotal => "decoded byte count overflows usize"@,
            IndexError::BadPattern => "pattern is not a regular expression"@,
            IndexError::IndexChangedLate => "index changed after candidate batches began; rerun the search to get a clean snapshot"@,
            IndexError::DocumentTruncated => "pack blocks ended before the document"@,
            IndexError::BatchSize => "candidate batch size must be positive"@,
            IndexError::AddressMissing => "candidate has no index snapshot address"@,
            IndexError::AddressSegment => "candidate segment is out of bounds"@,
            IndexError::AddressDocument => "candidate document is out of bounds"@,
            IndexError::AddressKey => "candidate display key differs from its index entry"@,
            IndexError::PostingsFetchCount { fetched, asked } => "get_ranges returned "@ + crate::text::decimal_text(fetched as nat) + " blocks for "@ + crate::text::decimal_text(asked as nat) + " ranges"@,
            IndexError::TermsTooShort => "sparse term table is too short for its footer"@,
            IndexError::TermsFooterShort => "sparse term table footer response is too short"@,
            IndexError::TermsIndexBounds => "sparse table index offset is out of bounds"@,
            IndexError::TermsTailShort => "sparse term table tail response is truncated"@,
            IndexError::TermsTailHash => "sparse term table tail hash mismatch: index is not trustworthy"@,
            IndexError::TermsFetchCount { fetched, asked } => "get_ranges returned "@ + crate::text::decimal_text(fetched as nat) + " blocks for "@ + crate::text::decimal_text(asked as nat) + " requests"@,
            IndexError::TermBlockHash => "sparse term table block hash mismatch"@,
            IndexError::TermBlockMissing => "sparse term table block was not fetched"@,
            IndexError::TermNotCollected => "gram was not looked up for this query"@,
            IndexError::ShardedStrategy => "only trigram term maps can be sharded"@,
            IndexError::TrigramLength => "trigram term has invalid length"@,
            IndexError::TermOrder => "terms are not sorted"@,
            IndexError::SparseKeyLength => "sparse term key must be an 8-byte hash"@,
            IndexError::ShardFooter => "trigram term map footer is truncated"@,
            IndexError::ShardOffsets => "trigram term map offsets are invalid"@,
            IndexError::NotAMap => "term dictionary is not a map"@,
            IndexError::SuffixLength => "trigram suffix has invalid length"@,
            IndexError::TermBlockBounds => "sparse block extends beyond the dictionary"@,
            IndexError::SampleFull => "sample window is full"@,
            IndexError::SegmentIdSource => "no random bytes for a segment ID"@,
            IndexError::BlobLength => "segment blob has the wrong length"@,
            IndexError::BlobHash => "segment blob failed its SHA-256 check"@,
            IndexError::StaleSource => "source changed since it was listed"@,
            IndexError::LocalConcurrency => "local fetch concurrency must be greater than 0"@,
            IndexError::SourceMetadata => "index has inconsistent metadata for a source"@,
            IndexError::FetchOutOfRange { at } => "fetch_many returned out-of-range document "@ + crate::text::decimal_text(at as nat) + ""@,
            IndexError::FetchTwice { at } => "fetch_many returned document "@ + crate::text::decimal_text(at as nat) + " twice"@,
            IndexError::DocumentCap => "segment document cap exceeded"@,
            IndexError::DecoderBegan => "decoder began a document before finishing the previous document"@,
            IndexError::DecoderIdle => "decoder wrote bytes before beginning a document"@,
            IndexError::DecoderUnbegun => "decoder finished without beginning a document"@,
        }
    }

    /// What the error says, for people.
    pub fn message(&self) -> (text: String)
        ensures
            text@ == self.text(),
    {
        match self {
            IndexError::CountExceedsDocs { count, doc_count } => with_number(with_number("posting count ", *count as u64, " exceeds doc count ").as_str(), *doc_count as u64, ""),
            IndexError::MissingWidth => String::from_str("posting block ends before its width header"),
            IndexError::InvalidWidth { width } => with_number("posting block width ", *width as u64, " is invalid"),
            IndexError::TruncatedBlock => String::from_str("posting block ends inside its packed ids"),
            IndexError::DeltaOverflow => String::from_str("posting delta overflows the id space"),
            IndexError::IdOutOfBounds { id } => with_number("posting id ", *id as u64, " is out of bounds"),
            IndexError::TrailingBytes { extra } => with_number("posting list has ", *extra as u64, " trailing bytes"),
            IndexError::BlockLength { len, expected } => with_number(with_number("posting block is ", *len as u64, " bytes, expected ").as_str(), *expected as u64, ""),
            IndexError::NotAscending => String::from_str("posting block ids are not strictly ascending"),
            IndexError::PostingOffset { offset } => with_number("postings offset ", *offset as u64, " exceeds the 1 TiB format limit"),
            IndexError::PostingCount { ids } => with_number("posting list of ", *ids as u64, " docs exceeds the format limit"),
            IndexError::SingletonOutOfRange { offset, id_space } => with_number(with_number("singleton posting id ", *offset as u64, " is outside 0..").as_str(), *id_space as u64, ""),
            IndexError::BlockNotFetched { offset } => with_number("posting block at offset ", *offset as u64, " was not fetched"),
            IndexError::SourcesUnsorted => String::from_str("segment sources are not unique and sorted"),
            IndexError::SourceRangeGap => String::from_str("source document ranges are not contiguous"),
            IndexError::SourceRangeBounds => String::from_str("source document range is out of bounds"),
            IndexError::FailedWithDocuments => String::from_str("failed source contains documents"),
            IndexError::RetryNotFailed => String::from_str("retryable source is not failed"),
            IndexError::WrongSource => String::from_str("document points to the wrong source"),
            IndexError::MemberKeyMismatch => String::from_str("document display key does not match its member path"),
            IndexError::SourceKeyMismatch => String::from_str("source document display key does not match its source"),
            IndexError::DuplicateKey => String::from_str("duplicate document display key"),
            IndexError::DocumentsUnsorted => String::from_str("source documents are not sorted"),
            IndexError::UnownedDocuments => String::from_str("unowned documents remain"),
            IndexError::BlockCompressedLength => String::from_str("pack block compressed length is zero"),
            IndexError::BlockDecodedLength => String::from_str("pack block decoded length is invalid"),
            IndexError::PackIdGap => String::from_str("pack IDs are not contiguous"),
            IndexError::BlockOffsetGap => String::from_str("pack blocks are not contiguous"),
            IndexError::BlockOffsetOverflow => String::from_str("pack block offsets overflow"),
            IndexError::EmptyDocumentCoordinates => String::from_str("empty document has pack coordinates"),
            IndexError::DocumentCoordinateGap => String::from_str("document pack coordinates are not contiguous"),
            IndexError::DocumentOutsideBlocks => String::from_str("document points outside pack blocks"),
            IndexError::UnownedBlockBytes => String::from_str("unowned decoded bytes remain in pack blocks"),
            IndexError::DeadSourcesUnsorted => String::from_str("dead source IDs are not sorted and unique"),
            IndexError::DeadDocumentsUnsorted => String::from_str("dead document IDs are not sorted and unique"),
            IndexError::DeadSourceBounds => String::from_str("dead source ID is out of bounds"),
            IndexError::DeadDocumentBounds => String::from_str("dead document ID is out of bounds"),
            IndexError::DeadRangeOverflow => String::from_str("dead source document range overflows"),
            IndexError::DeadSourceLive => String::from_str("dead source has live documents"),
            IndexError::DeadDocumentOrphan => String::from_str("dead document belongs to a live source"),
            IndexError::NoCandidatePlans => String::from_str("candidate plans must not be empty"),
            IndexError::DocumentLimit => String::from_str("candidate document batch limit must be positive"),
            IndexError::DecodedByteLimit => String::from_str("candidate decoded-byte batch limit must be positive"),
            IndexError::ByteSpan => String::from_str("candidate byte span must be positive"),
            IndexError::CandidateBlockCount => String::from_str("segment candidate block count overflows u32"),
            IndexError::DocumentExtent => String::from_str("document extent cannot be stored as a candidate range"),
            IndexError::CandidateBlockBounds { id, total } => with_number(with_number("candidate block ", *id as u64, " is outside 0..").as_str(), *total as u64, ""),
            IndexError::CandidateDocumentBounds { id, document_count } => with_number(with_number("candidate document ", *id as u64, " is outside 0..").as_str(), *document_count as u64, ""),
            IndexError::MissingBlockBases => String::from_str("trigram candidate block bases are missing"),
            IndexError::TableOrder => String::from_str("sparse table inserts must be ascending and unique"),
            IndexError::TableTruncated => String::from_str("sparse table is truncated"),
            IndexError::TableMagic => String::from_str("sparse table footer magic mismatch"),
            IndexError::TableIndexOverflow => String::from_str("sparse table index length overflows"),
            IndexError::TableIndexGap => String::from_str("sparse table index does not abut the footer"),
            IndexError::TableTailShort => String::from_str("sparse table tail does not include the index"),
            IndexError::TableBlockGap => String::from_str("sparse table blocks are not contiguous"),
            IndexError::TableBlockUnderflow => String::from_str("sparse table block ends before it starts"),
            IndexError::TableBlockLength => String::from_str("sparse table block length is invalid"),
            IndexError::TableUnsorted => String::from_str("sparse table block index is not sorted"),
            IndexError::TableEntryCount => String::from_str("sparse table entry count does not match its blocks"),
            IndexError::PostingsTruncated => String::from_str("postings table tail is truncated"),
            IndexError::PostingsMagic => String::from_str("postings table footer magic mismatch"),
            IndexError::PostingsBlockCount => String::from_str("postings table block count does not match its data length"),
            IndexError::PostingsGap => String::from_str("postings table does not abut its data region"),
            IndexError::PostingsTailShort => String::from_str("postings table tail does not include the full table"),
            IndexError::PostingsRangeOverflow => String::from_str("postings range overflows"),
            IndexError::PostingsRangeBounds => String::from_str("postings range is outside the data region"),
            IndexError::PostingsBlockHash { block } => with_number("postings block ", *block as u64, " failed verification"),
            IndexError::BlockOffsetBounds => String::from_str("document block offset is out of bounds"),
            IndexError::BlockExhausted => String::from_str("document block has no available bytes"),
            IndexError::MissingPackBlock => String::from_str("document points outside pack blocks"),
            IndexError::PackRangeBounds => String::from_str("pack range is out of bounds"),
            IndexError::PackRangeLength => String::from_str("pack range length mismatch"),
            IndexError::PackBlockHash => String::from_str("pack block hash mismatch"),
            IndexError::PackBlockUnreadable => String::from_str("pack block is not a readable frame"),
            IndexError::PackBlockDecoded => String::from_str("pack block decoded length mismatch"),
            IndexError::CandidateBytes { start, end, decoded_size } => with_number(with_number(with_number("candidate byte range ", *start as u64, "..").as_str(), *end as u64, " is outside a ").as_str(), *decoded_size as u64, "-byte document"),
            IndexError::RegionalSpan => String::from_str("regional span must be positive"),
            IndexError::RangeReversed => String::from_str("document range is invalid"),
            IndexError::RangeIncomplete => String::from_str("document range is incomplete"),
            IndexError::BlockNotDecoded { block } => with_number("decoded pack block ", *block as u64, " is missing"),
            IndexError::DecodedBlockShort => String::from_str("document block range is out of bounds"),
            IndexError::NewlineBlockMissing => String::from_str("document newline block is missing"),
            IndexError::NewlineCount => String::from_str("document newline count is inconsistent"),
            IndexError::LineOverflow => String::from_str("document line number overflows"),
            IndexError::PackBlockSize => String::from_str("pack block size must be positive"),
            IndexError::PackTargetSize => String::from_str("pack target size must be positive"),
            IndexError::PackCompress => String::from_str("pack block could not be compressed"),
            IndexError::PackTooLarge => String::from_str("pack length overflows"),
            IndexError::PackIdBounds => String::from_str("pack ID is out of bounds"),
            IndexError::PackRangeCount { fetched, asked } => with_number(with_number("get_ranges returned ", *fetched as u64, " blocks for ").as_str(), *asked as u64, " ranges"),
            IndexError::LocalPrefix => String::from_str("local source identity must be a non-empty directory prefix"),
            IndexError::S3Endpoint => String::from_str("S3 source endpoint is empty"),
            IndexError::S3Bucket => String::from_str("S3 source bucket is empty"),
            IndexError::S3Prefix => String::from_str("S3 source prefix must be empty or end with /"),
            IndexError::FormatVersion { found, current } => with_number(with_number("index format ", *found as u64, " is not the current ").as_str(), *current as u64, ""),
            IndexError::SegmentId => String::from_str("segment ID is not a SHA-256 hash"),
            IndexError::SegmentBlobHash => String::from_str("segment blob hash is not a SHA-256 hash"),
            IndexError::SegmentTailHash => String::from_str("segment term tail hash is invalid"),
            IndexError::SegmentDuplicate => String::from_str("segment ID is duplicated"),
            IndexError::SegmentKeyBounds => String::from_str("segment key bounds are reversed"),
            IndexError::SegmentDeadMeta => String::from_str("segment dead-set metadata is invalid"),
            IndexError::SegmentPackMeta => String::from_str("segment pack metadata is invalid"),
            IndexError::SegmentDocCount => String::from_str("segment document count does not match its metadata"),
            IndexError::SegmentEmpty => String::from_str("segment has no sources"),
            IndexError::SegmentKeyMismatch => String::from_str("segment key bounds do not match its source table"),
            IndexError::SegmentPackCount => String::from_str("segment pack count does not match its metadata"),
            IndexError::PackWithoutBlocks => String::from_str("segment pack has no blocks"),
            IndexError::PackLength => String::from_str("segment pack length does not match its blocks"),
            IndexError::EmptyPosting => String::from_str("term map contains an empty posting"),
            IndexError::PostingCountBounds => String::from_str("term map posting count exceeds its segment document count"),
            IndexError::PostingLengthOverflow => String::from_str("term map posting length overflows"),
            IndexError::PostingBounds => String::from_str("term map posting extends beyond postings.bin"),
            IndexError::RemoteTermsMin => String::from_str("HOLYS3_SPARSE_REMOTE_MIN is not a byte count"),
            IndexError::DuplicateListing { at } => with_number("duplicate listing key at ", *at as u64, ""),
            IndexError::SourceMismatch => String::from_str("index was built for another source; use --rebuild to replace it"),
            IndexError::GramWidth => String::from_str("term map gram width does not match the index strategy"),
            IndexError::PostingLengthPresence => String::from_str("sparse entries must carry a posting length"),
            IndexError::PostingsCut => String::from_str("truncated postings.bin during merge"),
            IndexError::PostingOutsideSegment => String::from_str("posting ID is outside its segment"),
            IndexError::RemapBounds => String::from_str("remapped document ID is out of bounds"),
            IndexError::SegmentTooLarge => String::from_str("segment document count overflows"),
            IndexError::SegmentCap => String::from_str("segment document cap must be greater than 0"),
            IndexError::EmptySegment => String::from_str("refusing to build an empty segment shard"),
            IndexError::SourceTooLarge => String::from_str("source expands beyond the segment cap"),
            IndexError::WindowSize => String::from_str("match window must be greater than 0"),
            IndexError::WindowOverflow => String::from_str("match window range overflows"),
            IndexError::WindowSource => String::from_str("match window source is too short"),
            IndexError::DocumentLength { bytes, decoded_size } => with_number(with_number("decoded document is ", *bytes as u64, " bytes, expected ").as_str(), *decoded_size as u64, ""),
            IndexError::StreamOverlap => String::from_str("streaming regex overlap exceeds its limit"),
            IndexError::CandidateTotal => String::from_str("candidate count overflows usize"),
            IndexError::HitTotal => String::from_str("hit count overflows usize"),
            IndexError::FetchedTotal => String::from_str("fetched byte count overflows usize"),
            IndexError::RegionalTotal => String::from_str("regional document count overflows usize"),
            IndexError::WholeTotal => String::from_str("whole document count overflows usize"),
            IndexError::DecodedTotal => String::from_str("decoded byte count overflows usize"),
            IndexError::BadPattern => String::from_str("pattern is not a regular expression"),
            IndexError::IndexChangedLate => String::from_str("index changed after candidate batches began; rerun the search to get a clean snapshot"),
            IndexError::DocumentTruncated => String::from_str("pack blocks ended before the document"),
            IndexError::BatchSize => String::from_str("candidate batch size must be positive"),
            IndexError::AddressMissing => String::from_str("candidate has no index snapshot address"),
            IndexError::AddressSegment => String::from_str("candidate segment is out of bounds"),
            IndexError::AddressDocument => String::from_str("candidate document is out of bounds"),
            IndexError::AddressKey => String::from_str("candidate display key differs from its index entry"),
            IndexError::PostingsFetchCount { fetched, asked } => with_number(with_number("get_ranges returned ", *fetched as u64, " blocks for ").as_str(), *asked as u64, " ranges"),
            IndexError::TermsTooShort => String::from_str("sparse term table is too short for its footer"),
            IndexError::TermsFooterShort => String::from_str("sparse term table footer response is too short"),
            IndexError::TermsIndexBounds => String::from_str("sparse table index offset is out of bounds"),
            IndexError::TermsTailShort => String::from_str("sparse term table tail response is truncated"),
            IndexError::TermsTailHash => String::from_str("sparse term table tail hash mismatch: index is not trustworthy"),
            IndexError::TermsFetchCount { fetched, asked } => with_number(with_number("get_ranges returned ", *fetched as u64, " blocks for ").as_str(), *asked as u64, " requests"),
            IndexError::TermBlockHash => String::from_str("sparse term table block hash mismatch"),
            IndexError::TermBlockMissing => String::from_str("sparse term table block was not fetched"),
            IndexError::TermNotCollected => String::from_str("gram was not looked up for this query"),
            IndexError::ShardedStrategy => String::from_str("only trigram term maps can be sharded"),
            IndexError::TrigramLength => String::from_str("trigram term has invalid length"),
            IndexError::TermOrder => String::from_str("terms are not sorted"),
            IndexError::SparseKeyLength => String::from_str("sparse term key must be an 8-byte hash"),
            IndexError::ShardFooter => String::from_str("trigram term map footer is truncated"),
            IndexError::ShardOffsets => String::from_str("trigram term map offsets are invalid"),
            IndexError::NotAMap => String::from_str("term dictionary is not a map"),
            IndexError::SuffixLength => String::from_str("trigram suffix has invalid length"),
            IndexError::TermBlockBounds => String::from_str("sparse block extends beyond the dictionary"),
            IndexError::SampleFull => String::from_str("sample window is full"),
            IndexError::SegmentIdSource => String::from_str("no random bytes for a segment ID"),
            IndexError::BlobLength => String::from_str("segment blob has the wrong length"),
            IndexError::BlobHash => String::from_str("segment blob failed its SHA-256 check"),
            IndexError::StaleSource => String::from_str("source changed since it was listed"),
            IndexError::LocalConcurrency => String::from_str("local fetch concurrency must be greater than 0"),
            IndexError::SourceMetadata => String::from_str("index has inconsistent metadata for a source"),
            IndexError::FetchOutOfRange { at } => with_number("fetch_many returned out-of-range document ", *at as u64, ""),
            IndexError::FetchTwice { at } => with_number("fetch_many returned document ", *at as u64, " twice"),
            IndexError::DocumentCap => String::from_str("segment document cap exceeded"),
            IndexError::DecoderBegan => String::from_str("decoder began a document before finishing the previous document"),
            IndexError::DecoderIdle => String::from_str("decoder wrote bytes before beginning a document"),
            IndexError::DecoderUnbegun => String::from_str("decoder finished without beginning a document"),
        }
    }
}

} // verus!
