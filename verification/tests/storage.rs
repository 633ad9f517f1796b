//! Packs, posting files, dictionaries and document tables, written and read back.

use seagrep_index::documents::{plan_documents, LargeAssembly};
use seagrep_index::error::IndexError;
use seagrep_index::eval::TermLookup;
use seagrep_index::fetch::{finish_request, plan_regions, FetchedDocument, RegionProgram};
use seagrep_index::format::{
    DeadSet, DocEntry, PackBlock, SegmentTables, SourceEncoding, SourceEntry, PACK_BLOCK_BYTES,
};
use seagrep_index::names::{block_path, pack_blob, segment_blob, term_block_path, verified_path};
use seagrep_index::pack::{
    block_runs, block_span, document_blocks, is_large_request, request_windows, run_batches,
    ByteRange, PackRequest, PackRun, PackSlice,
};
use seagrep_index::pack_build::{decode_block, BuiltPacks, PackBuilder, PackMeta};
use seagrep_index::postings_table::{
    PostingsTableIndex, PostingsTableWriter, VERIFY_BLOCK_BYTES,
};
use seagrep_index::query::{Query, Strategy};
use seagrep_index::regions::{
    merge_planned_ranges, PackRange, PackRegionRequest, PlannedRange, PlannedRead,
};
use seagrep_index::remote_terms::{
    block_ranges, check_blocks, check_tail, collect_grams, footer_range, found_terms, gram_values,
    parse_index_tail, query_blocks, sorted_numbers, tail_hash_of, tail_range, QueryTerms,
};
use seagrep_index::sparse_table::{
    lookup_in_block, SparseTableIndex, SparseTableWriter, BLOCK_ENTRIES, FOOTER_BYTES,
};
use seagrep_index::terms::{
    get_sparse, open_shards, shard_key, sparse_entries, TermBuilder, TrigramBuilder, TRIGRAM_SHARDS,
};
use seagrep_index::text::hex;
use seagrep_index::visit::{
    miss_ranges, pack_groups, resolve_batch, run_pack, split_run, BlockState, Claim,
};
use sha2::{Digest, Sha256};
use std::collections::BTreeMap;

fn read_packs(built: &BuiltPacks, slice: PackSlice, len: u64) -> Result<Vec<u8>, IndexError> {
    let mut output = Vec::new();
    for part in document_blocks(slice, len, &built.blocks)? {
        let block = &built.blocks[part.block_id];
        let pack = &built.packs[block.pack as usize];
        let start = block.offset as usize;
        let frame = &pack.bytes[start..start + block.compressed_len as usize];
        let decoded = decode_block(block, frame)?;
        output.extend_from_slice(&decoded[part.offset..part.offset + part.len]);
    }
    Ok(output)
}

#[test]
fn packs_documents_across_shared_blocks_and_files() {
    let mut builder = PackBuilder::new(8, 12).unwrap();
    let first = builder.append(b"abc").unwrap();
    let second = builder.append(b"defghijkl").unwrap();
    let empty = builder.append(b"").unwrap();
    let built = builder.finish().unwrap();

    assert_eq!(
        first,
        PackSlice {
            first_block: 0,
            block_offset: 0
        }
    );
    assert_eq!(
        second,
        PackSlice {
            first_block: 0,
            block_offset: 3
        }
    );
    assert_eq!(
        empty,
        PackSlice {
            first_block: 0,
            block_offset: 0
        }
    );
    assert_eq!(built.blocks.len(), 2);
    assert_eq!(built.packs.len(), 2);
    assert_eq!(read_packs(&built, first, 3).unwrap(), b"abc");
    assert_eq!(read_packs(&built, second, 9).unwrap(), b"defghijkl");
    assert!(read_packs(&built, empty, 0).unwrap().is_empty());
}

#[test]
fn packs_are_named_by_their_content() {
    let mut builder = PackBuilder::production();
    builder.append(b"alpha beta gamma").unwrap();
    let built = builder.finish().unwrap();
    let pack = &built.packs[0];
    assert_eq!(pack.hash, hex(&Sha256::digest(&pack.bytes)));
    assert_eq!(pack.meta().len, pack.bytes.len() as u64);
    // the frame is compressed, not the text itself
    assert_ne!(&pack.bytes[..], b"alpha beta gamma");
    assert_eq!(
        zstd::bulk::decompress(&pack.bytes, 1024).unwrap(),
        b"alpha beta gamma"
    );
}

#[test]
fn pack_builders_need_positive_sizes() {
    assert_eq!(PackBuilder::new(0, 1).err(), Some(IndexError::PackBlockSize));
    assert_eq!(PackBuilder::new(1, 0).err(), Some(IndexError::PackTargetSize));
}

#[test]
fn rejects_corrupt_compressed_blocks() {
    let mut builder = PackBuilder::new(8, 1024).unwrap();
    let document = builder.append(b"abcdefgh").unwrap();
    let mut built = builder.finish().unwrap();
    let at = built.blocks[0].offset as usize;
    built.packs[0].bytes[at] ^= 0xff;

    let error = read_packs(&built, document, 8).unwrap_err();
    assert!(error.message().contains("hash"), "{error:?}");
}

#[test]
fn unreadable_and_short_frames_are_errors() {
    let frame = b"no frame".to_vec();
    let block = PackBlock {
        pack: 0,
        offset: 0,
        compressed_len: frame.len() as u32,
        decoded_len: 8,
        hash: Sha256::digest(&frame).into(),
    };
    assert_eq!(
        decode_block(&block, &frame),
        Err(IndexError::PackBlockUnreadable)
    );
    let frame = zstd::bulk::compress(b"four", 1).unwrap();
    let block = PackBlock {
        hash: Sha256::digest(&frame).into(),
        ..block
    };
    assert_eq!(
        decode_block(&block, &frame),
        Err(IndexError::PackBlockDecoded)
    );
}

#[test]
fn coalesces_only_adjacent_blocks_within_the_range_cap() {
    let mut builder = PackBuilder::new(8, 1024).unwrap();
    builder.append(b"abcdefghijklmnopqrstuvwx").unwrap();
    let built = builder.finish().unwrap();

    assert_eq!(block_runs(&[0, 1, 2], &built.blocks).unwrap().len(), 1);
    assert_eq!(block_runs(&[0, 2], &built.blocks).unwrap().len(), 2);
    assert_eq!(
        block_runs(&[3], &built.blocks).err(),
        Some(IndexError::MissingPackBlock)
    );
}

fn decode_all(built: &BuiltPacks) -> BTreeMap<usize, Vec<u8>> {
    let ids: Vec<usize> = (0..built.blocks.len()).collect();
    let runs = block_runs(&ids, &built.blocks).unwrap();
    let mut decoded = BTreeMap::new();
    for run in runs {
        let pack = &built.packs[run.pack as usize];
        let bytes = pack.bytes[run.offset as usize..(run.offset + run.len) as usize].to_vec();
        let batch = [run];
        for (id, block) in resolve_batch(&batch, &built.blocks, &[None], &[bytes]).unwrap() {
            decoded.insert(id, block);
        }
    }
    decoded
}

fn newline_counts(body: &[u8]) -> Vec<u32> {
    body.chunks(PACK_BLOCK_BYTES)
        .map(|chunk| chunk.iter().filter(|byte| **byte == b'\n').count() as u32)
        .collect()
}

fn fetch(body: &[u8], ranges: &[PackRange]) -> FetchedDocument {
    let mut builder = PackBuilder::production();
    let slice = builder.append(body).unwrap();
    let built = builder.finish().unwrap();
    let block_newlines = newline_counts(body);
    let request = PackRegionRequest {
        index: 0,
        slice,
        decoded_size: body.len() as u64,
        ranges,
        block_newlines: &block_newlines,
    };
    let (plans, ids) = plan_regions(&[request], &built.blocks).unwrap();
    assert!(ids.iter().all(|id| *id < built.blocks.len()));
    finish_request(&request, &plans[0], &built.blocks, &decode_all(&built)).unwrap()
}

#[test]
fn lazy_line_fetch_assembles_a_line_spanning_pack_blocks() {
    let block = PACK_BLOCK_BYTES;
    let mut body = vec![b'x'; 3 * block + 6];
    body[2 * block + 17..2 * block + 23].copy_from_slice(b"needle");
    body[3 * block] = b'\n';
    body[3 * block + 1..].copy_from_slice(b"tail\n");
    let ranges = [PackRange::FullLines {
        bytes: ByteRange {
            start: (2 * block + 17) as u64,
            end: (2 * block + 23) as u64,
        },
        before_context: 0,
        after_context: 0,
    }];
    let FetchedDocument::Regions { regions, .. } = fetch(&body, &ranges) else {
        panic!("expected regional line fetch")
    };
    assert_eq!(regions.len(), 1);
    assert_eq!(regions[0].start, 0);
    assert_eq!(regions[0].line, 1);
    assert_eq!(regions[0].line_offset, 0);
    assert_eq!(regions[0].program, RegionProgram::Full);
    assert_eq!(regions[0].bytes, &body[..=3 * block]);
}

fn fetch_test_ranges(size: u64, ranges: &[PackRange]) -> FetchedDocument {
    fetch(&vec![b'x'; size as usize], ranges)
}

#[test]
fn batch_ranges_coalesce_and_fall_back_after_expansion() {
    let block = PACK_BLOCK_BYTES as u64;
    let regional = |start: u64, end: u64| PackRange::Regional {
        bytes: ByteRange { start, end },
        span: 1,
    };
    let disjoint = [regional(0, block), regional(8 * block, 9 * block)];
    let FetchedDocument::Regions { regions, .. } = fetch_test_ranges(20 * block, &disjoint) else {
        panic!("disjoint ranges should stay regional")
    };
    assert_eq!(regions.len(), 1);
    assert_eq!(regions[0].start, 0);
    assert_eq!(regions[0].bytes.len() as u64, 9 * block);

    let majority = [regional(0, 3 * block)];
    assert!(matches!(
        fetch_test_ranges(4 * block, &majority),
        FetchedDocument::Whole(_)
    ));

    let sparse = (0..64u64)
        .map(|index| regional(index * 10 * block, index * 10 * block + block))
        .collect::<Vec<_>>();
    let FetchedDocument::Regions { regions, .. } = fetch_test_ranges(640 * block, &sparse) else {
        panic!("64 sparse ranges should stay regional")
    };
    assert_eq!(regions.len(), 64);
    assert!(regions
        .iter()
        .all(|region| region.bytes.len() as u64 == block));

    let saturated = [PackRange::FullLines {
        bytes: ByteRange {
            start: 0,
            end: 4 * block,
        },
        before_context: 0,
        after_context: 0,
    }];
    assert!(matches!(
        fetch_test_ranges(4 * block, &saturated),
        FetchedDocument::Whole(_)
    ));
}

#[test]
fn batches_large_document_runs_by_compressed_bytes() {
    let runs = [4u64, 4, 5]
        .into_iter()
        .enumerate()
        .map(|(index, len)| PackRun {
            pack: 0,
            offset: u64::try_from(index).unwrap() * 8,
            len,
            blocks: vec![index],
        })
        .collect::<Vec<_>>();

    assert_eq!(run_batches(&runs, 8), [(0, 2), (2, 3)]);
    assert_eq!(run_batches(&runs, 3), [(0, 1), (1, 2), (2, 3)]);
}

fn request(decoded_size: u64) -> PackRequest {
    PackRequest {
        index: 0,
        slice: PackSlice {
            first_block: 0,
            block_offset: 0,
        },
        decoded_size,
    }
}

#[test]
fn treats_sixteen_mib_as_a_large_document() {
    assert!(is_large_request(&request(16 * 1024 * 1024)));
}

#[test]
fn isolates_large_documents_from_request_windows() {
    let requests = [1, 16 * 1024 * 1024, 1].map(request);
    assert_eq!(request_windows(&requests), [(0, 1), (1, 2), (2, 3)]);
}

#[test]
fn fetched_runs_are_checked_against_their_blocks() {
    let mut builder = PackBuilder::new(8, 1024).unwrap();
    builder.append(b"abcdefghijklmnop").unwrap();
    let built = builder.finish().unwrap();
    let run = &block_runs(&[0, 1], &built.blocks).unwrap()[0];
    let bytes = &built.packs[0].bytes;
    let frames = split_run(run, &built.blocks, bytes).unwrap();
    assert_eq!(frames.concat(), *bytes);
    assert_eq!(
        split_run(run, &built.blocks, &bytes[1..]),
        Err(IndexError::PackRangeLength)
    );
    let mut bad = bytes.clone();
    bad[0] ^= 1;
    assert_eq!(
        split_run(run, &built.blocks, &bad),
        Err(IndexError::PackBlockHash)
    );
}

#[test]
fn blocks_are_loaded_once() {
    let mut state = BlockState::new();
    assert!(!state.complete(&[1, 2]));
    let Claim::Load(ids) = state.claim(&[1, 2]) else {
        panic!("nothing is loaded yet")
    };
    assert_eq!(ids, [1, 2]);
    assert!(matches!(state.claim(&[2]), Claim::Wait));
    state.mark_ready(1);
    state.release(&[2]);
    let Claim::Load(ids) = state.claim(&[1, 2]) else {
        panic!("a released block is loaded again")
    };
    assert_eq!(ids, [2]);
    state.mark_ready(2);
    assert!(state.complete(&[1, 2]));
}

#[test]
fn windows_of_documents_load_their_blocks() {
    let mut builder = PackBuilder::new(8, 1024).unwrap();
    let first = builder.append(b"abc").unwrap();
    let second = builder.append(b"defghijklmno").unwrap();
    builder.append(b"pq").unwrap();
    let built = builder.finish().unwrap();
    let requests = [
        PackRequest {
            index: 0,
            slice: first,
            decoded_size: 3,
        },
        PackRequest {
            index: 1,
            slice: second,
            decoded_size: 12,
        },
        request(0),
    ];
    let (parts, ids) = plan_documents(&requests, &built.blocks).unwrap();
    assert_eq!(parts.len(), 3);
    assert!(parts[2].is_empty());
    assert_eq!(ids.into_iter().collect::<Vec<_>>(), [0, 1]);
    assert!(plan_documents(&[request(1000)], &built.blocks).is_err());
}

#[test]
fn large_documents_are_put_together_block_by_block() {
    let mut assembly = LargeAssembly::new(&PackRequest {
        index: 0,
        slice: PackSlice {
            first_block: 4,
            block_offset: 3,
        },
        decoded_size: 10,
    });
    assert_eq!(assembly.take_block(8, 10), Ok((3, 8, 0)));
    assert_eq!(assembly.finish(10), Err(IndexError::DocumentTruncated));
    assert_eq!(assembly.take_block(8, 10), Ok((0, 5, 5)));
    assert_eq!(assembly.finish(10), Ok(()));
    let mut misplaced = LargeAssembly::new(&PackRequest {
        index: 0,
        slice: PackSlice {
            first_block: 0,
            block_offset: 9,
        },
        decoded_size: 10,
    });
    assert_eq!(
        misplaced.take_block(8, 10),
        Err(IndexError::BlockOffsetBounds)
    );
}

#[test]
fn documents_outside_their_blocks_are_errors() {
    let blocks = [PackBlock {
        pack: 0,
        offset: 0,
        compressed_len: 1,
        decoded_len: 5,
        hash: [0; 32],
    }];
    let slice = PackSlice {
        first_block: 0,
        block_offset: 2,
    };
    assert_eq!(block_span(slice, 3, &blocks), Ok((0, 1)));
    assert!(block_span(slice, 4, &blocks).is_err());
    assert!(document_blocks(
        PackSlice {
            first_block: 0,
            block_offset: 9
        },
        1,
        &blocks
    )
    .is_err());
}

fn build_postings(data: &[u8]) -> (Vec<u8>, u64, String) {
    let mut writer = PostingsTableWriter::new();
    writer.write(data);
    writer.finish()
}

#[test]
fn table_round_trips_and_verifies_blocks() {
    let data: Vec<u8> = (0..200_000u32).map(|i| (i % 251) as u8).collect();
    let (blob, data_len, _) = build_postings(&data);
    assert_eq!(data_len, data.len() as u64);
    assert_eq!(&blob[..data.len()], &data[..]);

    let index = PostingsTableIndex::parse(blob.len() as u64, &blob).unwrap();
    assert_eq!(index.data_len, data.len() as u64);
    let blocks = index.blocks_covering(70_000, 1_000).unwrap();
    assert_eq!(blocks, (1, 2));
    let (first, last) = index.blocks_covering(0, data.len() as u64).unwrap();
    for block in first..last {
        let (offset, len) = index.block_range(block);
        let payload = &data[usize::try_from(offset).unwrap()..][..usize::try_from(len).unwrap()];
        index.verify(block, payload).unwrap();
        assert_eq!(
            index.block_hash(block)[..],
            Sha256::digest(payload)[..],
            "the table holds the digest of every block"
        );
    }
}

#[test]
fn corrupt_blocks_fail_verification_loudly() {
    let data = vec![7u8; VERIFY_BLOCK_BYTES + 10];
    let (blob, _, _) = build_postings(&data);
    let index = PostingsTableIndex::parse(blob.len() as u64, &blob).unwrap();
    let mut payload = data[..VERIFY_BLOCK_BYTES].to_vec();
    payload[100] ^= 0x01;
    assert!(index.verify(0, &payload).is_err(), "bit flip must fail");
    assert!(
        index.verify(1, &data[..9]).is_err(),
        "wrong length must fail"
    );
}

#[test]
fn parse_rejects_inconsistent_tails() {
    let (blob, _, _) = build_postings(b"hello postings");
    assert!(PostingsTableIndex::parse(blob.len() as u64 + 1, &blob).is_err());
    let mut wrong_magic = blob.clone();
    let len = wrong_magic.len();
    wrong_magic[len - 8..].copy_from_slice(b"NOTMAGIC");
    assert!(PostingsTableIndex::parse(len as u64, &wrong_magic).is_err());
    assert!(PostingsTableIndex::parse(4, b"abcd").is_err());

    // empty data region round-trips (single-doc segments can have no
    // multi-doc posting lists at all)
    let (blob, data_len, _) = build_postings(b"");
    assert_eq!(data_len, 0);
    let index = PostingsTableIndex::parse(blob.len() as u64, &blob).unwrap();
    assert_eq!(index.data_len, 0);
    assert!(index.blocks_covering(0, 1).is_err());
}

#[test]
fn postings_tails_have_a_digest() {
    let data = vec![3u8; 100];
    let (blob, data_len, tail_hash) = build_postings(&data);
    assert_eq!(
        tail_hash,
        hex(&Sha256::digest(&blob[usize::try_from(data_len).unwrap()..]))
    );
    // the tail alone is enough to parse the table
    let tail = &blob[data.len()..];
    let index = PostingsTableIndex::parse(blob.len() as u64, tail).unwrap();
    index.verify(0, &data).unwrap();
    assert_eq!(
        PostingsTableIndex::parse(blob.len() as u64, &tail[1..]).err(),
        Some(IndexError::PostingsTailShort)
    );
}

fn build_table(entries: &[(u64, u64)]) -> Vec<u8> {
    let mut writer = SparseTableWriter::new();
    for (hash, value) in entries {
        writer.insert(*hash, *value).unwrap();
    }
    writer.finish()
}

fn open_table(bytes: &[u8]) -> SparseTableIndex {
    SparseTableIndex::parse(bytes.len() as u64, bytes).unwrap()
}

fn get(bytes: &[u8], index: &SparseTableIndex, hash: u64) -> Option<u64> {
    let block = index.block_for(hash)?;
    let block_ref = &index.blocks[block];
    let start = usize::try_from(block_ref.offset).unwrap();
    let end = start + usize::try_from(block_ref.len).unwrap();
    lookup_in_block(&bytes[start..end], hash).unwrap()
}

#[test]
fn round_trips_entries_across_block_boundaries() {
    let entries: Vec<(u64, u64)> = (0..(BLOCK_ENTRIES as u64 * 2 + 7))
        .map(|i| (i * 3 + 1, i * 7))
        .collect();
    let bytes = build_table(&entries);
    let index = open_table(&bytes);
    assert_eq!(index.entry_count, entries.len() as u64);
    assert_eq!(index.blocks.len(), 3);
    for (hash, value) in [
        entries[0],
        entries[BLOCK_ENTRIES - 1],
        entries[BLOCK_ENTRIES],
        *entries.last().unwrap(),
    ] {
        assert_eq!(get(&bytes, &index, hash), Some(value), "hash {hash}");
        assert_eq!(get_sparse(&index, &bytes, hash), Ok(Some(value)));
    }
    assert_eq!(get(&bytes, &index, 0), None);
    assert_eq!(get(&bytes, &index, 2), None);
    assert_eq!(get(&bytes, &index, u64::MAX), None);
}

#[test]
fn rejects_unsorted_and_duplicate_inserts() {
    let mut writer = SparseTableWriter::new();
    writer.insert(10, 0).unwrap();
    assert!(writer.insert(10, 1).is_err(), "duplicate hash");
    let mut writer = SparseTableWriter::new();
    writer.insert(10, 0).unwrap();
    assert!(writer.insert(9, 1).is_err(), "descending hash");
}

#[test]
fn per_block_hashes_detect_corruption() {
    let entries: Vec<(u64, u64)> = (0..100u64).map(|i| (i + 1, i)).collect();
    let mut bytes = build_table(&entries);
    let index = open_table(&bytes);
    let block = &index.blocks[0];
    let start = usize::try_from(block.offset).unwrap();
    let end = start + usize::try_from(block.len).unwrap();
    assert_eq!(
        <[u8; 32]>::from(Sha256::digest(&bytes[start..end])),
        block.hash,
        "clean block matches its recorded hash"
    );
    bytes[start] ^= 0xff;
    assert_ne!(
        <[u8; 32]>::from(Sha256::digest(&bytes[start..end])),
        block.hash,
        "corrupted block no longer matches"
    );
}

#[test]
fn parse_rejects_truncated_and_foreign_bytes() {
    assert!(SparseTableIndex::parse(4, b"abcd").is_err());
    let bytes = build_table(&[(1, 2), (3, 4)]);
    assert!(SparseTableIndex::parse(bytes.len() as u64 - 1, &bytes[..bytes.len() - 1]).is_err());
    let mut foreign = bytes.clone();
    let len = foreign.len();
    foreign[len - 8..].copy_from_slice(b"NOTMAGIC");
    assert!(SparseTableIndex::parse(len as u64, &foreign).is_err());
}

#[test]
fn empty_table_round_trips() {
    let bytes = build_table(&[]);
    let index = open_table(&bytes);
    assert_eq!(index.entry_count, 0);
    assert!(index.blocks.is_empty());
    assert_eq!(index.block_for(42), None);
}

#[test]
fn blocks_that_cannot_be_read_are_errors() {
    assert_eq!(lookup_in_block(&[], 1), Err(IndexError::TableBlockLength));
    assert_eq!(
        lookup_in_block(&[0; 17], 1),
        Err(IndexError::TableBlockLength)
    );
    let bytes = build_table(&[(1, 2), (3, 4)]);
    let index = open_table(&bytes);
    assert_eq!(
        get_sparse(&index, &bytes[..20], 3),
        Err(IndexError::TermBlockBounds)
    );
}

fn table_fixture(entries: usize) -> (Vec<u8>, String, Vec<(u64, u64)>) {
    let pairs: Vec<(u64, u64)> = (0..entries as u64).map(|i| (i * 5 + 3, i)).collect();
    let bytes = build_table(&pairs);
    let tail_hash = tail_hash_of(&bytes).unwrap().unwrap();
    (bytes, tail_hash, pairs)
}

fn open_remote_index(bytes: &[u8], tail_hash: &str) -> Result<SparseTableIndex, IndexError> {
    let len = bytes.len() as u64;
    let read = |(start, len): (u64, u64)| &bytes[start as usize..(start + len) as usize];
    let range = tail_range(len, read(footer_range(len)?))?;
    let tail = read(range);
    check_tail(tail, range.1)?;
    parse_index_tail(len, tail, tail_hash)
}

#[test]
fn remote_open_fetches_only_the_tail_and_verifies_it() {
    let (bytes, tail_hash, pairs) = table_fixture(20_000);
    let index = open_remote_index(&bytes, &tail_hash).unwrap();
    assert_eq!(index.entry_count, pairs.len() as u64);
    let index_bytes = index.blocks.len() * (8 + 8 + 32) + FOOTER_BYTES;
    let len = bytes.len() as u64;
    let footer = &bytes[bytes.len() - FOOTER_BYTES..];
    assert!(
        tail_range(len, footer).unwrap().1 <= index_bytes as u64,
        "open must never fetch more than the index tail"
    );
    let wrong = hex(&[0u8; 32]);
    let error = open_remote_index(&bytes, &wrong).unwrap_err();
    assert!(error.message().contains("tail"), "{error:?}");
}

#[test]
fn query_grams_resolve_with_one_ranged_read() {
    let (bytes, tail_hash, pairs) = table_fixture(20_000);
    let index = open_remote_index(&bytes, &tail_hash).unwrap();
    let q = Query::And(vec![
        Query::Gram(b"hamlet".to_vec()),
        Query::Or(vec![
            Query::Gram(b"ophelia".to_vec()),
            Query::Gram(b"yorick".to_vec()),
        ]),
    ]);
    let mut grams = Vec::new();
    collect_grams(&q, &mut grams);
    assert_eq!(
        grams,
        vec![b"hamlet".to_vec(), b"ophelia".to_vec(), b"yorick".to_vec()]
    );
    // one of the hashes is in the table
    let hashes = [3u64, 4, 50_003];
    let sorted = sorted_numbers(&hashes);
    let missing = query_blocks(&index, &sorted);
    assert_eq!(missing, [0, 1]);
    let ranges = block_ranges(&index, &missing);
    let fetched: Vec<Vec<u8>> = ranges
        .iter()
        .map(|(start, len)| bytes[*start as usize..(*start + *len) as usize].to_vec())
        .collect();
    check_blocks(&index, &missing, &fetched).unwrap();
    let blocks: BTreeMap<u64, Vec<u8>> = missing.iter().copied().zip(fetched).collect();
    let values = gram_values(&index, &sorted, &blocks).unwrap();
    for hash in hashes {
        let expected = pairs
            .iter()
            .find(|(entry, _)| *entry == hash)
            .map(|(_, value)| *value);
        assert_eq!(values.get(&hash).copied(), expected, "hash {hash}");
    }
    let terms = QueryTerms {
        grams,
        found: found_terms(&hashes, &values),
    };
    assert_eq!(terms.lookup(b"hamlet").unwrap().unwrap().packed, 0);
    assert_eq!(terms.lookup(b"ophelia").unwrap(), None);
    assert_eq!(terms.lookup(b"yorick").unwrap().unwrap().packed, 10_000);
    assert_eq!(terms.lookup(b"laertes"), Err(IndexError::TermNotCollected));
}

#[test]
fn known_hashes_resolve_to_their_values() {
    let (bytes, tail_hash, pairs) = table_fixture(20_000);
    let index = open_remote_index(&bytes, &tail_hash).unwrap();
    let sample = [pairs[0], pairs[9_999], pairs[19_999]];
    for (hash, value) in sample {
        let block = index.block_for(hash).unwrap();
        let block = &index.blocks[block];
        let raw = &bytes[block.offset as usize..(block.offset + block.len) as usize];
        assert_eq!(lookup_in_block(raw, hash).unwrap(), Some(value));
    }
}

#[test]
fn corrupted_blocks_fail_loudly_at_query_time() {
    let (mut bytes, tail_hash, _pairs) = table_fixture(20_000);
    let index = open_remote_index(&bytes, &tail_hash).unwrap();
    bytes[64] ^= 0xff;
    let missing = query_blocks(&index, &[3]);
    assert_eq!(missing, [0]);
    let fetched: Vec<Vec<u8>> = block_ranges(&index, &missing)
        .iter()
        .map(|(start, len)| bytes[*start as usize..(*start + *len) as usize].to_vec())
        .collect();
    let error = check_blocks(&index, &missing, &fetched).unwrap_err();
    assert!(error.message().contains("hash"), "{error:?}");
    assert_eq!(
        check_blocks(&index, &missing, &[]),
        Err(IndexError::TermsFetchCount {
            fetched: 0,
            asked: 1
        })
    );
    assert!(matches!(
        gram_values(&index, &[3], &BTreeMap::new()),
        Err(IndexError::TermBlockMissing)
    ));
}

#[test]
fn remote_tables_must_have_a_footer_and_an_index() {
    assert_eq!(footer_range(32), Err(IndexError::TermsTooShort));
    assert_eq!(footer_range(33), Ok((1, 32)));
    assert_eq!(tail_range(100, &[0; 31]), Err(IndexError::TermsFooterShort));
    let mut footer = [0u8; 32];
    footer[16] = 100;
    assert_eq!(tail_range(100, &footer), Err(IndexError::TermsIndexBounds));
    assert_eq!(tail_range(101, &footer), Ok((100, 1)));
    assert_eq!(check_tail(&[1, 2], 3), Err(IndexError::TermsTailShort));
    assert_eq!(tail_hash_of(b"not a table at all, just some text ......"), Ok(None));
}

#[test]
fn trigram_term_map_shards_prefixes() {
    let mut builder = TermBuilder::new(Strategy::Trigram, true).unwrap();
    builder.insert(&[0x00, 0x01, 0x02], 1).unwrap();
    builder.insert(&[0x7f, 0x03, 0x04], 2).unwrap();
    builder.insert(&[0xff, 0x05, 0x06], 3).unwrap();
    let (bytes, _) = builder.finish();
    assert_eq!(&bytes[..8], b"SGTERM01");

    let ranges = open_shards(&bytes).unwrap().unwrap();
    assert_eq!(ranges.len(), TRIGRAM_SHARDS);
    for (gram, value) in [([0x00, 0x01, 0x02], 1), ([0x7f, 0x03, 0x04], 2)] {
        let (shard, suffix) = shard_key(&gram).unwrap();
        let (start, end) = ranges[shard];
        let map = fst::Map::new(&bytes[start..end]).unwrap();
        assert_eq!(map.get(suffix), Some(value));
        assert_eq!(map.len(), 1);
    }
    let (start, end) = ranges[1];
    assert_eq!(fst::Map::new(&bytes[start..end]).unwrap().len(), 0);
    assert_eq!(shard_key(b"four"), None);
}

#[test]
fn single_term_maps_are_plain_maps() {
    let mut builder = TermBuilder::new(Strategy::Trigram, false).unwrap();
    builder.insert(b"abc", 7).unwrap();
    builder.insert(b"abd", 8).unwrap();
    assert_eq!(builder.insert(b"abd", 9), Err(IndexError::TermOrder));
    let (bytes, tail) = builder.finish();
    assert_eq!(tail, None);
    assert!(open_shards(&bytes).unwrap().is_none());
    let map = fst::Map::new(&bytes[..]).unwrap();
    assert_eq!(map.get(b"abc"), Some(7));
    assert_eq!(map.get(b"abd"), Some(8));
    assert_eq!(map.get(b"abe"), None);
}

#[test]
fn term_builders_reject_what_they_cannot_hold() {
    assert_eq!(
        TermBuilder::new(Strategy::Sparse, true).err(),
        Some(IndexError::ShardedStrategy)
    );
    let mut sparse = TermBuilder::new(Strategy::Sparse, false).unwrap();
    assert_eq!(sparse.insert(b"short", 1), Err(IndexError::SparseKeyLength));
    sparse.insert(&9u64.to_be_bytes(), 1).unwrap();
    assert_eq!(
        sparse.insert(&9u64.to_be_bytes(), 1),
        Err(IndexError::TableOrder)
    );
    let mut trigram = TrigramBuilder::new();
    assert_eq!(trigram.insert(b"ab", 1), Err(IndexError::TrigramLength));
    trigram.insert(b"abc", 1).unwrap();
    assert_eq!(trigram.insert(b"abb", 1), Err(IndexError::TermOrder));
}

#[test]
fn sparse_dictionaries_record_their_tail() {
    let mut builder = TermBuilder::new(Strategy::Sparse, false).unwrap();
    builder.insert(&5u64.to_be_bytes(), 50).unwrap();
    builder.insert(&6u64.to_be_bytes(), 60).unwrap();
    let (bytes, tail) = builder.finish();
    let index = open_table(&bytes);
    let tail_at = (index.blocks[0].offset + index.blocks[0].len) as usize;
    assert_eq!(tail.unwrap(), hex(&Sha256::digest(&bytes[tail_at..])));
    assert_eq!(get_sparse(&index, &bytes, 6), Ok(Some(60)));
    assert_eq!(get_sparse(&index, &bytes, 7), Ok(None));
}

#[test]
fn shard_offsets_are_checked() {
    let mut bytes = TrigramBuilder::new().finish();
    assert!(open_shards(&bytes).unwrap().is_some());
    let n = bytes.len();
    bytes[n - 1] = 1;
    assert_eq!(open_shards(&bytes), Err(IndexError::ShardOffsets));
    assert_eq!(open_shards(b"SGTERM01"), Err(IndexError::ShardFooter));
    assert_eq!(open_shards(b"other"), Ok(None));
}

fn source(key: &str, encoding: SourceEncoding, first_doc: u32, doc_count: u32) -> SourceEntry {
    SourceEntry {
        key: key.into(),
        version: format!("{key}1"),
        encoded_size: 10,
        encoding,
        first_doc,
        doc_count,
        failed: false,
        retry: false,
    }
}

fn document(
    key: &str,
    source_id: u32,
    member: Option<&str>,
    decoded_size: u64,
    block_offset: u32,
) -> DocEntry {
    DocEntry {
        display_key: key.into(),
        source_id,
        member_path: member.map(String::from),
        decoded_size,
        first_block: 0,
        block_offset,
        max_line_len: 0,
        block_newlines: Vec::new(),
    }
}

fn tables() -> SegmentTables {
    SegmentTables {
        sources: vec![
            source("a.zip", SourceEncoding::Zip, 0, 2),
            source("b", SourceEncoding::Raw, 2, 1),
        ],
        documents: vec![
            document("a.zip!/a", 0, Some("a"), 1, 0),
            document("a.zip!/b", 0, Some("b"), 1, 1),
            document("b", 1, None, 3, 2),
        ],
        blocks: vec![PackBlock {
            pack: 0,
            offset: 0,
            compressed_len: 1,
            decoded_len: 5,
            hash: [0; 32],
        }],
    }
}

#[test]
fn accepts_valid_tables() {
    tables().validate().unwrap();
}

#[test]
fn rejects_invalid_source_and_document_tables() {
    let mut cases = Vec::new();

    let mut unsorted_sources = tables();
    unsorted_sources.sources.swap(0, 1);
    cases.push(unsorted_sources);

    let mut noncontiguous = tables();
    noncontiguous.sources[1].first_doc = 1;
    cases.push(noncontiguous);

    let mut wrong_source = tables();
    wrong_source.documents[0].source_id = 1;
    cases.push(wrong_source);

    let mut outside_source = tables();
    outside_source.documents[0].display_key = "elsewhere".into();
    cases.push(outside_source);

    let mut mismatched_member = tables();
    mismatched_member.documents[0].member_path = Some("elsewhere".into());
    cases.push(mismatched_member);

    let mut out_of_range = tables();
    out_of_range.sources[1].doc_count = 2;
    cases.push(out_of_range);

    let mut duplicate_document = tables();
    duplicate_document.documents[1].display_key = "a.zip!/a".into();
    cases.push(duplicate_document);

    for case in cases {
        assert!(case.validate().is_err());
    }
}

#[test]
fn table_errors_say_what_is_wrong() {
    let broken = |change: &dyn Fn(&mut SegmentTables)| {
        let mut tables = tables();
        change(&mut tables);
        tables.validate().unwrap_err()
    };
    assert_eq!(
        broken(&|t| t.sources[1].failed = true),
        IndexError::FailedWithDocuments
    );
    assert_eq!(
        broken(&|t| t.sources[1].retry = true),
        IndexError::RetryNotFailed
    );
    assert_eq!(
        broken(&|t| t.documents[2].display_key = "c".into()),
        IndexError::SourceKeyMismatch
    );
    assert_eq!(
        broken(&|t| t.blocks[0].compressed_len = 0),
        IndexError::BlockCompressedLength
    );
    assert_eq!(
        broken(&|t| t.blocks[0].decoded_len = 0),
        IndexError::BlockDecodedLength
    );
    assert_eq!(
        broken(&|t| t.blocks[0].offset = 4),
        IndexError::BlockOffsetGap
    );
    assert_eq!(
        broken(&|t| t.documents[2].block_offset = 3),
        IndexError::DocumentCoordinateGap
    );
    assert_eq!(
        broken(&|t| t.documents[2].decoded_size = 4),
        IndexError::DocumentOutsideBlocks
    );
    assert_eq!(
        broken(&|t| t.documents[2].decoded_size = 2),
        IndexError::UnownedBlockBytes
    );
}

#[test]
fn rejects_inconsistent_dead_sets() {
    let tables = tables();
    DeadSet {
        sources: vec![0],
        documents: vec![0, 1],
    }
    .validate(&tables)
    .unwrap();
    for dead in [
        DeadSet {
            sources: vec![2],
            documents: Vec::new(),
        },
        DeadSet {
            sources: vec![0],
            documents: vec![0],
        },
        DeadSet {
            sources: Vec::new(),
            documents: vec![2],
        },
    ] {
        assert!(dead.validate(&tables).is_err());
    }
}

#[test]
fn dead_sets_must_be_in_order() {
    let dead = |sources: Vec<u32>, documents: Vec<u32>| DeadSet { sources, documents };
    assert_eq!(dead(vec![0, 1], vec![2]).check_order(), Ok(()));
    assert_eq!(
        dead(vec![1, 0], vec![2]).check_order(),
        Err(IndexError::DeadSourcesUnsorted)
    );
    assert_eq!(
        dead(vec![0], vec![2, 2]).check_order(),
        Err(IndexError::DeadDocumentsUnsorted)
    );
}

#[test]
fn names_are_fixed() {
    assert_eq!(segment_blob("id", "docs.bin"), "segments/id/docs.bin");
    assert_eq!(pack_blob("ff"), "packs/ff.pack");
    assert_eq!(block_path("id", "ff", 255), "id/pack-ff-00000000000000ff");
    assert_eq!(term_block_path("id", 8), "id/terms-block-0000000000000008");
    assert_eq!(verified_path("a/terms.fst"), "a/terms.fst.verified");
}

#[test]
fn runs_are_fetched_pack_by_pack() {
    let run = |pack: u32, offset: u64, len: u64| PackRun {
        pack,
        offset,
        len,
        blocks: Vec::new(),
    };
    let runs = [run(0, 0, 5), run(0, 9, 3), run(2, 0, 7)];
    assert_eq!(pack_groups(&runs), [(0, 2), (2, 3)]);
    let packs = [PackMeta {
        hash: "e".repeat(64),
        len: 12,
    }];
    assert_eq!(run_pack(&packs, &runs[0]).unwrap().len, 12);
    assert_eq!(
        run_pack(&packs, &runs[2]).err(),
        Some(IndexError::PackIdBounds)
    );
    let cached = [None, Some(Vec::new())];
    assert_eq!(miss_ranges(&runs[..2], &cached, 12), Ok(vec![(0, 5)]));
    assert_eq!(
        miss_ranges(&runs[..2], &[None, None], 12),
        Ok(vec![(0, 5), (9, 3)])
    );
    assert_eq!(
        miss_ranges(&runs[..2], &[None, None], 11),
        Err(IndexError::PackRangeBounds)
    );
    // what is cached is not asked for, wherever it is said to lie
    assert_eq!(miss_ranges(&runs[..2], &cached, 5), Ok(vec![(0, 5)]));
    let far = [run(0, u64::MAX, 2)];
    assert_eq!(
        miss_ranges(&far, &[None], 100),
        Err(IndexError::PackRangeBounds)
    );
}

#[test]
fn sparse_entries_round_trip_through_a_new_builder() {
    let mut builder = TermBuilder::new(Strategy::Sparse, false).unwrap();
    for value in 0..20_000u64 {
        let hash = value * 0x1234_5678_9abc;
        builder.insert(&hash.to_be_bytes(), value).unwrap();
    }
    let (bytes, _) = builder.finish();
    let index = SparseTableIndex::parse(bytes.len() as u64, &bytes).unwrap();
    assert_eq!(index.blocks.len(), 3);
    let mut rebuilt = TermBuilder::new(Strategy::Sparse, false).unwrap();
    for (hash, value) in sparse_entries(&index, &bytes).unwrap() {
        rebuilt.insert(&hash.to_be_bytes(), value).unwrap();
    }
    let (rebuilt_bytes, _) = rebuilt.finish();
    assert_eq!(bytes, rebuilt_bytes, "round trip must be byte-identical");
    assert_eq!(
        sparse_entries(&index, &bytes[..100]),
        Err(IndexError::TermBlockBounds)
    );
}

#[test]
fn merged_ranges_are_apart() {
    let planned = |start, end| PlannedRange {
        bytes: ByteRange { start, end },
        read: PlannedRead::Regional,
    };
    let given = [(50, 60), (0, 10), (12, 20), (15, 18), (100, 110), (63, 70)];
    let merged = merge_planned_ranges(given.map(|(start, end)| planned(start, end)).to_vec(), 4);
    let shown: Vec<(u64, u64)> = merged
        .iter()
        .map(|range| (range.bytes.start, range.bytes.end))
        .collect();
    assert_eq!(shown, [(0, 20), (50, 70), (100, 110)]);
}
