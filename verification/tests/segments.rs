//! Segments: their metadata, updates, compaction, building and caching.

use seagrep_index::addresses::{
    candidate_batch, decode_blocks, group_addresses, live_ids, segment_requests, selected_ids,
    sort_addresses, source_prefix, DocAddress, IndexAddress,
};
use seagrep_index::cache::{
    cache_action, cached_bytes, check_blob, check_dead, verification_text, CacheAction, CachedFile,
};
use seagrep_index::compact::{
    choose_victim, live_entry, merge_requests, place_documents, plan_merge, remap_posting_id,
    select_requests, SegmentSize,
};
use seagrep_index::decode::{
    display_key, pack_documents, sort_documents, DocumentName, DocumentSink,
};
use seagrep_index::detect::{sample_picks, vote, SampleWindow};
use seagrep_index::error::IndexError;
use seagrep_index::eval::{pack_posting, Resolved};
use seagrep_index::format::{
    DeadSet, DocEntry, PackBlock, SegmentTables, SourceEncoding, SourceEntry,
};
use seagrep_index::ingest::{
    build_chunks, document_limit, ingest_source, place_fetched, prefetchable, SourceOutcome,
};
use seagrep_index::local::{
    check_local_body, content_version, group_local, plan_local, LocalCorpus, LocalFetcher,
    SourceObject,
};
use seagrep_index::pack::PackSlice;
use seagrep_index::pack_build::{PackBuilder, PackMeta};
use seagrep_index::posting_block::encode_posting_block;
use seagrep_index::publish::{
    abandoned_blobs, check_publish, classify_failure, is_stale, random_seg_id, seg_id_of,
    written_meta, FailureCause, SegmentSplits, WrittenBlob,
};
use seagrep_index::query::Strategy;
use seagrep_index::segment::{
    garbage, meta_blobs, opens_remotely, parse_remote_terms_min, posting_ranges, prefix_overlaps,
    validate_segment_tables, SegmentList, SegmentMeta, INDEX_FORMAT,
};
use seagrep_index::source::SourceIdentity;
use seagrep_index::text::{hex, is_sha256};
use seagrep_index::update::{
    adopt_root, chosen_strategy, live_after_update, plan_update, segment_doc_count, should_repack,
    update_report, Adoption, ListedObject, RootState, SegmentAction, UpdateFlags, SEGMENT_COUNT_TARGET,
};
use sha2::{Digest, Sha256};
use std::collections::BTreeMap;

fn test_source() -> SourceIdentity {
    SourceIdentity::Local {
        prefix: "/test/".into(),
    }
}

fn segment() -> SegmentMeta {
    SegmentMeta {
        seg_id: "a".repeat(64),
        doc_count: 1,
        terms_fst_len: 1,
        terms_fst_hash: "b".repeat(64),
        terms_tail_hash: String::new(),
        postings_len: 1,
        postings_hash: "c".repeat(64),
        docs_len: 1,
        docs_hash: "d".repeat(64),
        min_key: "a".into(),
        max_key: "z".into(),
        dead_hash: String::new(),
        dead_len: 0,
        packs: vec![PackMeta {
            hash: "e".repeat(64),
            len: 1,
        }],
    }
}

fn list(segments: Vec<SegmentMeta>) -> SegmentList {
    SegmentList {
        format: INDEX_FORMAT,
        source: test_source(),
        strategy: Strategy::Trigram,
        segments,
    }
}

#[test]
fn remote_terms_threshold_rejects_malformed_configuration() {
    assert_eq!(parse_remote_terms_min(None).unwrap(), 64 * 1024 * 1024);
    assert_eq!(parse_remote_terms_min(Some("1")).unwrap(), 1);
    let error = parse_remote_terms_min(Some("64MB")).unwrap_err();
    assert!(
        error.message().contains("HOLYS3_SPARSE_REMOTE_MIN"),
        "{error:?}"
    );
}

#[test]
fn remote_terms_threshold_is_a_byte_count() {
    for text in ["", "-1", "18446744073709551616", "1 "] {
        assert_eq!(
            parse_remote_terms_min(Some(text)),
            Err(IndexError::RemoteTermsMin),
            "{text:?}"
        );
    }
    assert_eq!(
        parse_remote_terms_min(Some("18446744073709551615")),
        Ok(u64::MAX)
    );
    let mut meta = segment();
    meta.terms_fst_len = 100;
    assert!(!opens_remotely(&meta, Strategy::Sparse, 100));
    meta.terms_tail_hash = "f".repeat(64);
    assert!(opens_remotely(&meta, Strategy::Sparse, 100));
    assert!(!opens_remotely(&meta, Strategy::Sparse, 101));
    assert!(!opens_remotely(&meta, Strategy::Trigram, 100));
}

#[test]
fn segment_list_rejects_unsafe_and_inconsistent_metadata() {
    list(vec![segment()]).check().unwrap();

    let mut unsafe_id = segment();
    unsafe_id.seg_id = "../outside".into();
    assert!(list(vec![unsafe_id]).check().is_err());

    assert!(list(vec![segment(), segment()]).check().is_err());

    let mut reversed = segment();
    reversed.min_key = "z".into();
    reversed.max_key = "a".into();
    assert!(list(vec![reversed]).check().is_err());

    let mut invalid_dead = segment();
    invalid_dead.dead_hash = "b".repeat(64);
    assert!(list(vec![invalid_dead]).check().is_err());
}

#[test]
fn segment_list_errors_say_what_is_wrong() {
    let mut old = list(Vec::new());
    old.format = 1;
    assert_eq!(
        old.check(),
        Err(IndexError::FormatVersion {
            found: 1,
            current: INDEX_FORMAT
        })
    );
    let broken = |change: &dyn Fn(&mut SegmentMeta)| {
        let mut meta = segment();
        change(&mut meta);
        list(vec![meta]).check().unwrap_err()
    };
    assert_eq!(
        broken(&|meta| meta.docs_hash = "x".into()),
        IndexError::SegmentBlobHash
    );
    assert_eq!(
        broken(&|meta| meta.terms_tail_hash = "x".into()),
        IndexError::SegmentTailHash
    );
    assert_eq!(
        broken(&|meta| meta.packs[0].len = 0),
        IndexError::SegmentPackMeta
    );
    let mut nowhere = list(Vec::new());
    nowhere.source = SourceIdentity::Local {
        prefix: String::new(),
    };
    assert_eq!(nowhere.check(), Err(IndexError::LocalPrefix));
}

#[test]
fn source_identity_allows_only_same_backend_subtrees() {
    let local = test_source();
    assert!(local.can_search(&SourceIdentity::Local {
        prefix: "/test/child/".into()
    }));
    assert!(!local.can_search(&SourceIdentity::Local {
        prefix: "/other/".into()
    }));

    let s3 = SourceIdentity::S3 {
        endpoint: "https://s3.us-east-1.amazonaws.com".into(),
        bucket: "source".into(),
        prefix: "logs/".into(),
    };
    assert!(s3.can_search(&SourceIdentity::S3 {
        endpoint: "https://s3.us-east-1.amazonaws.com".into(),
        bucket: "source".into(),
        prefix: "logs/app/".into(),
    }));
    assert!(!s3.can_search(&SourceIdentity::S3 {
        endpoint: "http://127.0.0.1:9000".into(),
        bucket: "source".into(),
        prefix: "logs/".into(),
    }));
}

#[test]
fn source_identities_are_checked_and_described() {
    let s3 = |endpoint: &str, bucket: &str, prefix: &str| SourceIdentity::S3 {
        endpoint: endpoint.into(),
        bucket: bucket.into(),
        prefix: prefix.into(),
    };
    assert_eq!(s3("", "b", "").validate(), Err(IndexError::S3Endpoint));
    assert_eq!(s3("e", "", "").validate(), Err(IndexError::S3Bucket));
    assert_eq!(s3("e", "b", "logs").validate(), Err(IndexError::S3Prefix));
    assert_eq!(s3("e", "b", "").validate(), Ok(()));
    assert_eq!(test_source().describe(), "local directory /test/");
    assert_eq!(s3("e", "b", "p/").describe(), "s3://b/p/ at e");
}

#[test]
fn index_update_rejects_source_change_without_rebuild() {
    let root = RootState::Loaded(list(Vec::new()));
    let other = SourceIdentity::Local {
        prefix: "/other/".into(),
    };
    let error = adopt_root(&root, &other, Strategy::Trigram, false)
        .expect_err("source mismatch must fail");
    assert!(error.message().contains("use --rebuild to replace it"));
    assert_eq!(
        adopt_root(&root, &other, Strategy::Trigram, true),
        Ok(Adoption {
            keep: false,
            replace: true,
            forced: true
        })
    );
    assert_eq!(
        adopt_root(&root, &test_source(), Strategy::Trigram, false),
        Ok(Adoption {
            keep: true,
            replace: false,
            forced: false
        })
    );
}

#[test]
fn strategies_of_existing_roots_are_kept() {
    let empty = RootState::Loaded(list(Vec::new()));
    let held = RootState::Loaded(list(vec![segment()]));
    assert_eq!(chosen_strategy(None, &empty, false), None);
    assert_eq!(chosen_strategy(None, &held, false), Some(Strategy::Trigram));
    assert_eq!(chosen_strategy(None, &held, true), None);
    assert_eq!(
        chosen_strategy(Some(Strategy::Sparse), &held, false),
        Some(Strategy::Sparse)
    );
    assert_eq!(chosen_strategy(None, &RootState::Absent, false), None);
}

fn entry(key: &str, first_doc: u32, doc_count: u32) -> SourceEntry {
    SourceEntry {
        key: key.into(),
        version: "v1".into(),
        encoded_size: 1,
        encoding: SourceEncoding::Raw,
        first_doc,
        doc_count,
        failed: false,
        retry: false,
    }
}

fn doc(key: &str, source_id: u32, size: u64, block_offset: u32) -> DocEntry {
    DocEntry {
        display_key: key.into(),
        source_id,
        member_path: None,
        decoded_size: size,
        first_block: 0,
        block_offset,
        max_line_len: 0,
        block_newlines: Vec::new(),
    }
}

fn block(decoded_len: u32) -> PackBlock {
    PackBlock {
        pack: 0,
        offset: 0,
        compressed_len: 1,
        decoded_len,
        hash: [0; 32],
    }
}

/// One source and document for each key, one byte each.
fn keyed(keys: &[&str]) -> SegmentTables {
    SegmentTables {
        sources: keys
            .iter()
            .enumerate()
            .map(|(i, key)| entry(key, i as u32, 1))
            .collect(),
        documents: keys
            .iter()
            .enumerate()
            .map(|(i, key)| doc(key, i as u32, 1, i as u32))
            .collect(),
        blocks: vec![block(keys.len() as u32)],
    }
}

#[test]
fn segment_tables_reject_mismatched_key_bounds() {
    let tables = keyed(&["actual"]);
    let mut meta = segment();
    meta.min_key = "wrong".into();
    meta.max_key = "wrong".into();
    assert!(validate_segment_tables(&meta, &tables).is_err());
    meta.min_key = "actual".into();
    meta.max_key = "actual".into();
    validate_segment_tables(&meta, &tables).unwrap();
}

#[test]
fn segment_tables_must_match_their_metadata() {
    let tables = keyed(&["actual"]);
    let mut meta = segment();
    meta.min_key = "actual".into();
    meta.max_key = "actual".into();
    meta.packs[0].len = 2;
    assert_eq!(
        validate_segment_tables(&meta, &tables),
        Err(IndexError::PackLength)
    );
    meta.packs.clear();
    assert_eq!(
        validate_segment_tables(&meta, &tables),
        Err(IndexError::SegmentPackCount)
    );
    meta.doc_count = 2;
    assert_eq!(
        validate_segment_tables(&meta, &tables),
        Err(IndexError::SegmentDocCount)
    );
}

#[test]
fn posting_ranges_reject_impossible_metadata() {
    let needed = BTreeMap::from([(0, 2)]);
    assert!(posting_ranges(&needed, 1, 1).is_err());
}

#[test]
fn posting_ranges_follow_counts() {
    // two of ten documents at four bits each fill one byte
    let needed = BTreeMap::from([(8, 2), (0, 1)]);
    assert_eq!(posting_ranges(&needed, 10, 9), Ok(vec![(0, 1), (8, 1)]));
    assert_eq!(
        posting_ranges(&needed, 10, 8),
        Err(IndexError::PostingBounds)
    );
    assert_eq!(
        posting_ranges(&BTreeMap::from([(0, 0)]), 10, 8),
        Err(IndexError::EmptyPosting)
    );
}

#[test]
fn prefixes_skip_segments_that_cannot_hold_them() {
    let mut meta = segment();
    meta.min_key = "logs/b".into();
    meta.max_key = "logs/d".into();
    assert!(prefix_overlaps(&meta, "logs/"));
    assert!(prefix_overlaps(&meta, "logs/c"));
    assert!(!prefix_overlaps(&meta, "logs/a"));
    assert!(!prefix_overlaps(&meta, "logs/e"));
    assert!(prefix_overlaps(&meta, ""));
}

#[test]
fn unreferenced_blobs_are_garbage() {
    let mut old = segment();
    old.seg_id = "1".repeat(64);
    let kept = segment();
    let blobs = garbage(&[old, segment()], &[kept]);
    let id = "1".repeat(64);
    assert_eq!(
        blobs,
        [
            format!("segments/{id}/terms.fst"),
            format!("segments/{id}/postings.bin"),
            format!("segments/{id}/docs.bin"),
        ],
        "a pack that another segment names stays"
    );
    let mut with_dead = segment();
    with_dead.dead_hash = "9".repeat(64);
    assert!(meta_blobs(&with_dead)
        .contains(&format!("segments/{}/dead-{}.bin", "a".repeat(64), "9".repeat(64))));
}

#[test]
fn compaction_rejects_overflowing_segment_sizes_without_panicking() {
    for (terms_len, postings_len, docs_len) in
        [(u64::MAX, 0, 0), (0, u64::MAX, 0), (0, 0, u64::MAX)]
    {
        let sizes: Vec<SegmentSize> = (0..=SEGMENT_COUNT_TARGET)
            .map(|_| SegmentSize {
                postings_len,
                terms_len,
                docs_len,
                live: 1,
            })
            .collect();
        assert_eq!(choose_victim(&sizes), None);
    }
}

#[test]
fn compaction_merges_the_smallest_neighbours() {
    let sizes = |live: &[u64]| -> Vec<SegmentSize> {
        live.iter()
            .map(|live| SegmentSize {
                postings_len: 1,
                terms_len: 1,
                docs_len: 1,
                live: *live,
            })
            .collect()
    };
    let few = vec![9u64; SEGMENT_COUNT_TARGET];
    assert_eq!(choose_victim(&sizes(&few)), None);
    let mut many = vec![9u64; SEGMENT_COUNT_TARGET + 1];
    many[3] = 1;
    many[4] = 2;
    assert_eq!(choose_victim(&sizes(&many)), Some(3));
}

#[test]
fn oversized_grams_error_instead_of_panicking() {
    let packed = pack_posting(0, 1).expect("test setup failed");
    let error = live_entry(
        Strategy::Trigram,
        4,
        0,
        &[],
        &[Some(0), Some(1), None, Some(2)],
        &[0, 1, 2, 3, 4],
        &[0, 1, 2, 3],
        b"ninebytes",
        packed,
        None,
    )
    .expect_err("oversized gram must error");
    assert!(error.message().contains("gram width"), "{error:?}");
}

#[test]
fn singleton_entries_remap_without_touching_postings() {
    let packed = pack_posting(3, 1).expect("test setup failed");
    let entry = |packed: u64| {
        live_entry(
            Strategy::Trigram,
            4,
            0,
            &[],
            &[Some(0), Some(1), None, Some(2)],
            &[0, 1, 2, 3, 4],
            &[0, 1, 2, 3],
            b"abc",
            packed,
            None,
        )
    };
    let (key, ids) = entry(packed).expect("singleton entry");
    assert_eq!(ids, [2], "remapped singleton must be written");
    assert_eq!(key, 0x61_6263);

    let out_of_bounds = pack_posting(9, 1).expect("test setup failed");
    assert!(entry(out_of_bounds).is_err());
}

#[test]
fn trigram_block_ids_keep_document_offsets_when_remapped() {
    let remap = [Some(1), None, Some(0)];
    let old_bases = [0, 2, 5, 6];
    let new_bases = [0, 1, 3];
    assert_eq!(
        remap_posting_id(Strategy::Trigram, 1, &remap, &old_bases, &new_bases).unwrap(),
        Some(2)
    );
    assert_eq!(
        remap_posting_id(Strategy::Trigram, 4, &remap, &old_bases, &new_bases).unwrap(),
        None
    );
    assert_eq!(
        remap_posting_id(Strategy::Trigram, 5, &remap, &old_bases, &new_bases).unwrap(),
        Some(0)
    );
}

#[test]
fn sparse_ids_remap_without_block_bases() {
    assert_eq!(
        remap_posting_id(Strategy::Sparse, 1, &[Some(2), Some(0)], &[], &[]).unwrap(),
        Some(0)
    );
}

#[test]
fn posting_ids_outside_the_segment_are_errors() {
    assert_eq!(
        remap_posting_id(Strategy::Sparse, 2, &[Some(2), Some(0)], &[], &[]),
        Err(IndexError::PostingOutsideSegment)
    );
}

#[test]
fn merges_keep_live_documents_in_key_order() {
    let left = keyed(&["a", "c"]);
    let right = keyed(&["b", "d"]);
    let dead = DeadSet {
        sources: vec![1],
        documents: vec![1],
    };
    let plan = plan_merge(&[left, right], &[dead, DeadSet::default()]).unwrap();
    let keys: Vec<&str> = plan
        .tables
        .documents
        .iter()
        .map(|document| document.display_key.as_str())
        .collect();
    assert_eq!(keys, ["a", "b", "d"]);
    assert_eq!(plan.order, [(0, 0), (1, 0), (1, 1)]);
    assert_eq!(plan.remaps[0], [Some(0), None]);
    assert_eq!(plan.remaps[1], [Some(1), Some(2)]);

    let requests = merge_requests(&plan.tables);
    assert_eq!(requests.len(), 3);
    let right = select_requests(&requests, &plan.documents, 1);
    assert_eq!(
        right.iter().map(|request| request.index).collect::<Vec<_>>(),
        [1, 2]
    );
    let slices = [0, 1, 2].map(|block_offset| PackSlice {
        first_block: 0,
        block_offset,
    });
    let placed = place_documents(plan.tables, &slices, vec![block(3)]);
    placed.validate().unwrap();
}

fn listed(objects: &[(&str, &str)]) -> Vec<ListedObject> {
    objects
        .iter()
        .map(|(key, version)| (key.to_string(), version.to_string(), 1))
        .collect()
}

const NO_FLAGS: UpdateFlags = UpdateFlags {
    purge_deleted: false,
    forced: false,
    root_missing: false,
};

#[test]
fn updates_add_change_and_remove() {
    let tables = [keyed(&["a", "b", "c", "d", "e", "f", "g", "h"])];
    let dead = [DeadSet::default()];
    // b is gone, c has changed, z is new
    let listing = listed(&[
        ("z", "v1"),
        ("a", "v1"),
        ("c", "v2"),
        ("d", "v1"),
        ("e", "v1"),
        ("f", "v1"),
        ("g", "v1"),
        ("h", "v1"),
    ]);
    let plan = plan_update(&listing, &tables, &dead, &[8], NO_FLAGS).unwrap();
    assert_eq!(plan.to_add, listed(&[("c", "v2"), ("z", "v1")]));
    assert_eq!(plan.gone, [(0, 1), (0, 2)]);
    assert_eq!(plan.dead[0].documents, [1, 2]);
    assert!(!plan.up_to_date);
    assert_eq!(plan.total_docs, 8);
    assert_eq!(plan.actions, [SegmentAction::Repack]);
    let report = update_report(&plan, NO_FLAGS, false, 1, 8);
    assert_eq!((report.added, report.removed), (2, 2));
}

#[test]
fn unchanged_listings_are_up_to_date() {
    let tables = [keyed(&["a", "b"])];
    let dead = [DeadSet::default()];
    let plan = plan_update(
        &listed(&[("a", "v1"), ("b", "v1")]),
        &tables,
        &dead,
        &[2],
        NO_FLAGS,
    )
    .unwrap();
    assert!(plan.up_to_date);
    assert_eq!(plan.actions, [SegmentAction::Keep]);
    let report = update_report(&plan, NO_FLAGS, false, 1, 2);
    assert!(report.up_to_date);
}

#[test]
fn duplicate_listing_fails_before_fetching() {
    let error = plan_update(
        &listed(&[("a", "v1"), ("b", "v1"), ("a", "v2")]),
        &[],
        &[],
        &[],
        NO_FLAGS,
    )
    .unwrap_err();
    assert!(error.message().contains("duplicate listing key"), "{error:?}");
}

#[test]
fn dead_fractions_call_for_a_repack() {
    let tables = keyed(&["a", "b", "c", "d", "e", "f", "g", "h"]);
    let dead = |ids: &[u32]| DeadSet {
        sources: ids.to_vec(),
        documents: ids.to_vec(),
    };
    assert!(!should_repack(8, &tables, &dead(&[])));
    assert!(!should_repack(8, &tables, &dead(&[3])));
    assert!(should_repack(8, &tables, &dead(&[3, 4])));
    assert_eq!(segment_doc_count(&tables, &dead(&[3, 4])), 6);
    let several = [tables, keyed(&["x", "y"])];
    assert_eq!(live_after_update(&several, &[dead(&[3, 4]), dead(&[1])]), 7);
    assert_eq!(live_after_update(&[], &[]), 0);
}

#[test]
fn segment_build_splits_on_logical_document_count() {
    // each object has one document, and a segment may have two
    let mut splits = SegmentSplits::new(5, 2).unwrap();
    let mut built = Vec::new();
    while let Some((start, end)) = splits.next() {
        if end - start > 2 {
            splits.exceeded().unwrap();
        } else {
            built.push(end - start);
            splits.built();
        }
    }
    assert_eq!(built, vec![2, 1, 2]);
}

#[test]
fn segment_cap_stops_before_later_archive_failure() {
    let mut splits = SegmentSplits::new(1, 2).unwrap();
    let error = splits.exceeded().unwrap_err();
    assert!(error.message().contains("segment cap"), "{error:?}");
    assert_eq!(
        SegmentSplits::new(1, 0).err(),
        Some(IndexError::SegmentCap)
    );
    assert_eq!(
        SegmentSplits::new(0, 2).err(),
        Some(IndexError::EmptySegment)
    );
}

#[test]
fn segment_root_references_uploaded_content_packs() {
    let mut builder = PackBuilder::production();
    let slice = builder.append(b"alpha").unwrap();
    let built = builder.finish().unwrap();
    let mut tables = keyed(&["a.txt"]);
    tables.documents[0].decoded_size = 5;
    tables.documents[0].first_block = slice.first_block;
    tables.documents[0].block_offset = slice.block_offset;
    tables.blocks = built.blocks;
    let packs: Vec<PackMeta> = built.packs.iter().map(|pack| pack.meta()).collect();
    check_publish(&tables, &packs).unwrap();
    let blob = |hash: &str| WrittenBlob {
        len: 1,
        hash: hash.repeat(64),
    };
    let meta = written_meta(
        seg_id_of(&[7; 32]),
        &tables,
        packs,
        blob("1"),
        String::new(),
        blob("2"),
        blob("3"),
    );
    validate_segment_tables(&meta, &tables).unwrap();
    let pack = &meta.packs[0];
    let bytes = &built.packs[0].bytes;
    assert_eq!(bytes.len() as u64, pack.len);
    assert_eq!(hex(&Sha256::digest(bytes)), pack.hash);
    assert_eq!(meta.seg_id, "07".repeat(32));
    list(vec![meta]).check().unwrap();
}

#[test]
fn segments_are_checked_before_they_are_written() {
    let mut empty = keyed(&["a"]);
    empty.sources.clear();
    assert_eq!(
        check_publish(&empty, &[]),
        Err(IndexError::SegmentEmpty)
    );
    assert_eq!(
        check_publish(&keyed(&["a"]), &[]),
        Err(IndexError::SegmentPackCount)
    );
    assert_eq!(
        check_publish(
            &keyed(&["a"]),
            &[PackMeta {
                hash: "e".repeat(64),
                len: 9
            }]
        ),
        Err(IndexError::PackLength)
    );
    assert_eq!(
        abandoned_blobs("id"),
        [
            "segments/id/terms.fst",
            "segments/id/postings.bin",
            "segments/id/docs.bin"
        ]
    );
}

#[test]
fn segment_ids_are_random_hashes() {
    let one = random_seg_id().unwrap();
    let two = random_seg_id().unwrap();
    assert!(is_sha256(&one));
    assert!(is_sha256(&two));
    assert_ne!(one, two);
}

#[test]
fn stale_directories_and_changed_roots_are_told_apart() {
    assert!(!is_stale(&[segment()], &"a".repeat(64)));
    assert!(is_stale(&[segment()], "other"));
    assert_eq!(classify_failure("v1", Ok(Some("v1"))), FailureCause::Index);
    assert_eq!(
        classify_failure("v1", Ok(Some("v2"))),
        FailureCause::Changed
    );
    assert_eq!(classify_failure("v1", Ok(None)), FailureCause::Changed);
    assert_eq!(classify_failure("v1", Err(())), FailureCause::Unknown);
}

#[test]
fn cached_blob_repairs_same_length_corruption() {
    let hash = hex(&Sha256::digest(b"good"));
    assert_eq!(cached_bytes(Some(b"good".to_vec()), &hash), Some(b"good".to_vec()));
    assert_eq!(cached_bytes(Some(b"bad!".to_vec()), &hash), None);
    assert_eq!(cached_bytes(None, &hash), None);
    assert_eq!(check_blob(b"good", Some(4), &hash), Ok(()));
    assert_eq!(
        check_blob(b"bad!", Some(4), &hash),
        Err(IndexError::BlobHash)
    );
    assert_eq!(
        check_blob(b"good", Some(5), &hash),
        Err(IndexError::BlobLength)
    );
}

#[test]
fn cached_files_are_trusted_until_they_change() {
    let text = verification_text("abc", 12, 345);
    assert_eq!(text, "abc\n12:345");
    let file = |len: u64, nanos: u32, marker: Option<&str>| {
        Some(CachedFile {
            len,
            secs: 12,
            nanos,
            marker: marker.map(String::from),
        })
    };
    assert_eq!(
        cache_action(&file(9, 345, Some(&text)), 9, "abc"),
        CacheAction::Trust
    );
    assert_eq!(
        cache_action(&file(9, 346, Some(&text)), 9, "abc"),
        CacheAction::Hash
    );
    assert_eq!(cache_action(&file(9, 345, None), 9, "abc"), CacheAction::Hash);
    assert_eq!(
        cache_action(&file(8, 345, Some(&text)), 9, "abc"),
        CacheAction::Fetch
    );
    assert_eq!(cache_action(&None, 9, "abc"), CacheAction::Fetch);
    let dead = DeadSet {
        sources: vec![0],
        documents: vec![0, 3],
    };
    assert_eq!(check_dead(&dead, 4), Ok(()));
    assert_eq!(check_dead(&dead, 3), Err(IndexError::DeadDocumentBounds));
}

fn object(key: &str, encoded_size: u64) -> SourceObject {
    SourceObject {
        key: key.into(),
        version: key.into(),
        encoded_size,
    }
}

#[test]
fn build_chunks_bounds_encoded_bytes() {
    let mib = 1024 * 1024;
    let sources = [40, 30, 70, 1]
        .into_iter()
        .enumerate()
        .map(|(index, size)| object(&index.to_string(), size * mib))
        .collect::<Vec<_>>();
    assert_eq!(build_chunks(&sources), [(0, 1), (1, 2), (2, 3), (3, 4)]);
    assert!(prefetchable(&sources, (0, 1)));
    assert!(!prefetchable(&sources, (0, 2)));
    assert!(!prefetchable(&sources, (2, 3)));
}

#[test]
fn rejects_out_of_range_fetch_results() {
    let error = place_fetched((0, 1), &[1]).unwrap_err();
    assert!(
        error
            .message()
            .contains("fetch_many returned out-of-range document 1"),
        "{error:?}"
    );
    assert_eq!(
        place_fetched((4, 7), &[6, 4]),
        Ok(vec![Some(1), None, Some(0)])
    );
    assert_eq!(
        place_fetched((4, 7), &[6, 6]),
        Err(IndexError::FetchTwice { at: 6 })
    );
}

#[test]
fn ingesting_fills_the_tables() {
    let mut tables = SegmentTables {
        sources: Vec::new(),
        documents: Vec::new(),
        blocks: vec![block(1)],
    };
    let decoded = SourceOutcome::Decoded {
        encoding: SourceEncoding::Raw,
        documents: vec![doc("a", 0, 1, 0)],
    };
    ingest_source(&mut tables, &object("a", 1), decoded, Some(1)).unwrap();
    ingest_source(&mut tables, &object("b", 1), SourceOutcome::Failed, Some(1)).unwrap();
    ingest_source(&mut tables, &object("c", 1), SourceOutcome::Missing, None).unwrap();
    tables.validate().unwrap();
    assert_eq!(tables.documents.len(), 1);
    assert!(tables.sources[1].failed && !tables.sources[1].retry);
    assert!(tables.sources[2].failed && tables.sources[2].retry);
    let more = SourceOutcome::Decoded {
        encoding: SourceEncoding::Raw,
        documents: vec![doc("d", 3, 1, 0)],
    };
    assert_eq!(
        ingest_source(&mut tables, &object("d", 1), more, Some(1)),
        Err(IndexError::DocumentCap)
    );
    assert_eq!(document_limit(Some(3), 1), Ok(Some(2)));
    assert_eq!(document_limit(Some(3), 3), Err(IndexError::DocumentCap));
    assert_eq!(document_limit(None, 3), Ok(None));
}

fn named(source: &str, member: &str) -> DocumentName {
    DocumentName {
        display_key: display_key(source, Some(member)),
        member_path: Some(member.into()),
    }
}

#[test]
fn decoded_documents_are_begun_and_finished() {
    let mut sink = DocumentSink::new(Some(2));
    assert_eq!(sink.write(b"x"), Err(IndexError::DecoderIdle));
    assert_eq!(sink.finish(), Err(IndexError::DecoderUnbegun));
    sink.begin(named("a.zip", "n")).unwrap();
    assert_eq!(
        sink.begin(named("a.zip", "m")),
        Err(IndexError::DecoderBegan)
    );
    sink.write(b"one ").unwrap();
    sink.write(b"two").unwrap();
    sink.finish().unwrap();
    sink.begin(named("a.zip", "m")).unwrap();
    sink.finish().unwrap();
    assert_eq!(
        sink.begin(named("a.zip", "o")),
        Err(IndexError::DocumentCap)
    );
    assert_eq!(sink.documents.len(), 2);
    assert_eq!(sink.documents[0].display_key, "a.zip!/n");
    assert_eq!(sink.documents[0].bytes, b"one two");
    assert!(sink.documents[1].bytes.is_empty());
    assert_eq!(display_key("a.zip", None), "a.zip");
    assert_eq!(
        IndexError::DecoderIdle.message(),
        "decoder wrote bytes before beginning a document"
    );
}

#[test]
fn packed_documents_make_valid_tables() {
    let mut sink = DocumentSink::new(None);
    for (member, body) in [("c", "third"), ("a", "first"), ("b", "")] {
        sink.begin(named("a.zip", member)).unwrap();
        sink.write(body.as_bytes()).unwrap();
        sink.finish().unwrap();
    }
    let mut builder = PackBuilder::new(4, 1 << 20).unwrap();
    let decoded = sort_documents(sink.documents);
    let documents = pack_documents(&mut builder, 0, &decoded).unwrap();
    assert_eq!(
        documents
            .iter()
            .map(|document| (
                document.display_key.as_str(),
                document.decoded_size,
                document.first_block,
                document.block_offset
            ))
            .collect::<Vec<_>>(),
        [
            ("a.zip!/a", 5, 0, 0),
            ("a.zip!/b", 0, 0, 0),
            ("a.zip!/c", 5, 1, 1)
        ]
    );
    let mut tables = SegmentTables {
        sources: Vec::new(),
        documents: Vec::new(),
        blocks: Vec::new(),
    };
    let outcome = SourceOutcome::Decoded {
        encoding: SourceEncoding::Zip,
        documents,
    };
    ingest_source(&mut tables, &object("a.zip", 9), outcome, None).unwrap();
    tables.blocks = builder.finish().unwrap().blocks;
    tables.validate().unwrap();
}

#[test]
fn samples_are_spread_and_voted_on() {
    let mib = 1024 * 1024;
    let sized = |sizes: &[u64]| -> Vec<ListedObject> {
        sizes
            .iter()
            .enumerate()
            .map(|(i, size)| (format!("k{i}"), "v".into(), *size))
            .collect()
    };
    assert_eq!(sample_picks(&sized(&[1, 2, 3])), Some(vec![0, 1, 2]));
    assert_eq!(sample_picks(&sized(&[])), Some(vec![]));
    // one tenth of the bytes is too little to speak for the rest
    assert_eq!(sample_picks(&sized(&[mib, 1000 * mib])), None);
    let many = vec![1u64; 40];
    assert_eq!(
        sample_picks(&sized(&many)),
        Some((0..14).map(|k| k * 3).collect())
    );
    assert_eq!(vote(&[Some((true, 2)), Some((false, 1))]), Strategy::Sparse);
    assert_eq!(vote(&[Some((true, 1)), Some((false, 1))]), Strategy::Trigram);
    assert_eq!(vote(&[Some((true, 1)), None, None]), Strategy::Trigram);
    assert_eq!(vote(&[]), Strategy::Trigram);
}

#[test]
fn sample_windows_stop_when_full() {
    let mut sample = SampleWindow::new(5);
    assert_eq!(sample.write(b"abc"), Ok(()));
    assert_eq!(sample.write(b"defg"), Err(IndexError::SampleFull));
    assert_eq!(sample.window, b"abcde");
}

#[test]
fn local_listing_is_ordered_blake3() {
    assert_eq!(
        content_version(b"alpha"),
        blake3::hash(b"alpha").to_hex().as_str()
    );
    let listing = listed(&[("b", "v2"), ("a", "v1")]);
    let corpus = LocalCorpus::from_listing(&listing);
    assert_eq!(corpus.listing(), listing);
}

#[test]
fn local_fetch_rejects_stale_source_version() {
    let version = content_version(b"alpha");
    assert_eq!(check_local_body(b"alpha", &version, 5), Ok(()));
    assert_eq!(
        check_local_body(b"omega", &version, 5),
        Err(IndexError::StaleSource)
    );
    assert_eq!(
        check_local_body(b"alpha", &version, 6),
        Err(IndexError::StaleSource)
    );
    assert_eq!(
        LocalFetcher::new(0),
        Err(IndexError::LocalConcurrency)
    );
    assert!(LocalFetcher::new(2).is_ok());
}

fn address(key: &str, size: u64, index: Option<IndexAddress>) -> DocAddress {
    DocAddress {
        display_key: key.into(),
        source_key: key.into(),
        source_version: "v1".into(),
        encoded_size: size,
        encoding: SourceEncoding::Raw,
        member_path: None,
        index,
    }
}

#[test]
fn local_candidates_are_grouped_by_file() {
    let documents = [
        address("b", 1, None),
        address("a", 2, None),
        address("b", 1, None),
    ];
    let groups = group_local(&documents).unwrap();
    assert_eq!(groups.len(), 2);
    assert_eq!(groups[0].key, "a");
    assert_eq!(groups[1].requests, [0, 2]);
    assert_eq!(plan_local(&groups, 8), (2, vec![true, true]));
    assert_eq!(plan_local(&groups, 1), (1, vec![false, false]));
    assert!(matches!(
        group_local(&[address("b", 1, None), address("b", 2, None)]),
        Err(IndexError::SourceMetadata)
    ));
}

#[test]
fn candidates_become_addresses_and_requests() {
    let tables = keyed(&["a", "b", "c"]);
    let dead = DeadSet {
        sources: vec![1],
        documents: vec![1],
    };
    let live = live_ids(&[0, 1, 2], &dead);
    assert_eq!(live, [0, 2]);
    assert!(matches!(
        candidate_batch(3, &tables, &live, 0, 0),
        Err(IndexError::BatchSize)
    ));
    let first = candidate_batch(3, &tables, &live, 0, 1).unwrap();
    let second = candidate_batch(3, &tables, &live, 1, 1).unwrap();
    assert_eq!(first.len(), 1);
    assert_eq!(second[0].display_key, "c");
    assert_eq!(
        second[0].index,
        Some(IndexAddress {
            segment: 3,
            document: 2
        })
    );
    let documents = [
        candidate_batch(3, &tables, &live, 1, 9).unwrap().remove(0),
        candidate_batch(0, &tables, &live, 0, 1).unwrap().remove(0),
    ];
    let groups = group_addresses(&documents).unwrap();
    assert_eq!(groups, [(0, vec![(1, 0)]), (3, vec![(0, 2)])]);
    let requests = segment_requests(Some(&tables), &documents, &groups[1].1).unwrap();
    assert_eq!(requests[0].index, 0);
    assert_eq!(requests[0].slice.block_offset, 2);
    assert_eq!(
        segment_requests(None, &documents, &groups[1].1),
        Err(IndexError::AddressSegment)
    );
    assert_eq!(
        segment_requests(Some(&tables), &documents, &[(0, 3)]),
        Err(IndexError::AddressDocument)
    );
    assert_eq!(
        segment_requests(Some(&tables), &documents, &[(0, 1)]),
        Err(IndexError::AddressKey)
    );
    assert_eq!(
        group_addresses(&[address("x", 1, None)]),
        Err(IndexError::AddressMissing)
    );
}

#[test]
fn candidates_come_in_key_order() {
    let sorted = sort_addresses(vec![
        address("b", 1, None),
        address("c", 1, None),
        address("a", 1, None),
    ]);
    let keys: Vec<&str> = sorted.iter().map(|d| d.display_key.as_str()).collect();
    assert_eq!(keys, ["a", "b", "c"]);
    assert_eq!(source_prefix("logs/a.zip!/inner/x!/y"), "logs/a.zip");
    assert_eq!(source_prefix("logs/a"), "logs/a");
}

#[test]
fn posting_blocks_select_documents() {
    let mut bytes = Vec::new();
    encode_posting_block(&mut bytes, &[1, 4], 10);
    let needed = BTreeMap::from([(8u64, 2u32)]);
    let blocks = decode_blocks(&needed, &[bytes], 10).unwrap();
    assert_eq!(blocks, BTreeMap::from([(8, vec![1, 4])]));
    assert_eq!(
        decode_blocks(&needed, &[], 10),
        Err(IndexError::PostingsFetchCount {
            fetched: 0,
            asked: 1
        })
    );
    let gram = Resolved::Gram {
        offset: 8,
        count: 2,
        len: 1,
    };
    assert_eq!(selected_ids(&gram, &blocks, 10), Ok(vec![1, 4]));
    assert_eq!(
        selected_ids(&Resolved::All, &blocks, 3),
        Ok(vec![0, 1, 2])
    );
}

#[test]
fn the_lowest_posting_that_is_wrong_is_reported() {
    let needed = BTreeMap::from([(2, 0), (8, 2), (1, 1)]);
    assert_eq!(
        posting_ranges(&needed, 10, 8),
        Err(IndexError::EmptyPosting)
    );
    let needed = BTreeMap::from([(9, 0), (8, 2)]);
    assert_eq!(
        posting_ranges(&needed, 10, 8),
        Err(IndexError::PostingBounds)
    );
}
