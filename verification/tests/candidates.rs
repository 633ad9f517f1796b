//! Candidate selection: queries, posting evaluation and the candidates that follow.

use seagrep_index::candidate::{
    add_candidate_selection, build_block_bases, expand_candidate_block, group_candidate_blocks,
    validate_candidate_plans, CandidateBatchLimits, CandidatePlan, CandidateRange, SearchExtent,
    CANDIDATE_BLOCK_BYTES,
};
use seagrep_index::delta_blocks::{decode_delta_blocks, encode_delta_blocks, encoded_len};
use seagrep_index::error::IndexError;
use seagrep_index::eval::{
    blocks_needed, eval, pack_posting, prune_and, resolve, unpack_posting, Expand, NoExpansion,
    Resolved, Selection, TermValue, BLOCK_MAX_GRAMS_PER_AND, MAX_POSTING_COUNT,
    SPARSE_MAX_GRAMS_PER_AND,
};
use seagrep_index::format::{DocEntry, SegmentTables};
use seagrep_index::posting_block::{
    decode_posting_block, encode_posting_block, posting_block_len, posting_id_bits,
};
use seagrep_index::query::{Query, Strategy};
use seagrep_index::remote_terms::QueryTerms;
use std::collections::BTreeMap;

fn tables(blocks: u64, max_line_len: u32) -> SegmentTables {
    SegmentTables {
        sources: Vec::new(),
        documents: vec![DocEntry {
            display_key: "large".into(),
            source_id: 0,
            member_path: None,
            decoded_size: blocks * CANDIDATE_BLOCK_BYTES as u64,
            first_block: 0,
            block_offset: 0,
            max_line_len,
            block_newlines: Vec::new(),
        }],
        blocks: Vec::new(),
    }
}

fn range(start: u32, end: u32, extent: SearchExtent) -> CandidateRange {
    CandidateRange { start, end, extent }
}

#[test]
fn saturated_max_line_expands_to_the_whole_document() {
    let tables = tables(4, u32::MAX);
    let bases = build_block_bases(&tables).unwrap();

    assert_eq!(
        expand_candidate_block(2, &bases, &tables, SearchExtent::Lines),
        (0, 3)
    );
    assert_eq!(
        group_candidate_blocks(&[0, 1, 2, 3], &bases, SearchExtent::Lines).unwrap(),
        vec![(0, vec![range(0, 4, SearchExtent::Lines)])]
    );
}

#[test]
fn bounded_match_slack_beats_saturated_line_slack() {
    let tables = tables(8, u32::MAX);
    let bases = build_block_bases(&tables).unwrap();

    assert_eq!(
        expand_candidate_block(4, &bases, &tables, SearchExtent::Bytes { span: 40 }),
        (3, 5)
    );
}

#[test]
fn block_candidates_group_and_merge_per_document() {
    let extent = SearchExtent::Bytes { span: 3 };
    assert_eq!(
        group_candidate_blocks(&[0, 1, 3, 4, 5, 7], &[0, 4, 8], extent).unwrap(),
        vec![
            (0, vec![range(0, 2, extent), range(3, 4, extent)]),
            (1, vec![range(0, 2, extent), range(3, 4, extent)]),
        ]
    );
}

#[test]
fn selections_merge_extents_and_documents_once() {
    let mut documents = BTreeMap::new();
    let bases = [0u32, 6, 10];
    let wide = SearchExtent::Bytes { span: 8 };

    add_candidate_selection(
        &mut documents,
        Selection::Ids(vec![0, 1]),
        SearchExtent::Bytes { span: 4 },
        Strategy::Trigram,
        2,
        Some(&bases),
    )
    .unwrap();
    add_candidate_selection(
        &mut documents,
        Selection::Ids(vec![1, 2, 4, 6]),
        wide,
        Strategy::Trigram,
        2,
        Some(&bases),
    )
    .unwrap();
    assert_eq!(
        documents.get(&0),
        Some(&Some(vec![range(0, 3, wide), range(4, 5, wide)]))
    );
    add_candidate_selection(
        &mut documents,
        Selection::Ids(vec![2]),
        SearchExtent::Lines,
        Strategy::Trigram,
        2,
        Some(&bases),
    )
    .unwrap();

    assert_eq!(
        documents.get(&0),
        Some(&Some(vec![
            range(0, 3, SearchExtent::Lines),
            range(4, 5, wide)
        ]))
    );
    assert_eq!(documents.get(&1), Some(&Some(vec![range(0, 1, wide)])));

    add_candidate_selection(
        &mut documents,
        Selection::Ids(vec![4]),
        SearchExtent::Document,
        Strategy::Trigram,
        2,
        Some(&bases),
    )
    .unwrap();
    add_candidate_selection(
        &mut documents,
        Selection::Ids(vec![5]),
        SearchExtent::Bytes { span: 32 },
        Strategy::Trigram,
        2,
        Some(&bases),
    )
    .unwrap();
    assert_eq!(documents.get(&0), Some(&None));

    let mut sparse = BTreeMap::new();
    add_candidate_selection(
        &mut sparse,
        Selection::Ids(vec![0, 1]),
        SearchExtent::Bytes { span: 4 },
        Strategy::Sparse,
        2,
        None,
    )
    .unwrap();
    assert_eq!(sparse, BTreeMap::from([(0, None), (1, None)]));
}

#[test]
fn validation_is_exact() {
    let query = Query::All;
    let limits = CandidateBatchLimits {
        documents: 1,
        decoded_bytes: 1,
    };
    let valid = [CandidatePlan {
        query: &query,
        extent: SearchExtent::Bytes { span: 1 },
    }];
    assert!(validate_candidate_plans(&valid, limits).is_ok());
    let invalid = [CandidatePlan {
        query: &query,
        extent: SearchExtent::Bytes { span: 0 },
    }];
    let error = validate_candidate_plans(&invalid, limits).unwrap_err();
    assert_eq!(error.message(), "candidate byte span must be positive");
}

#[test]
fn candidate_requests_must_have_plans_and_limits() {
    let query = Query::All;
    let plans = [CandidatePlan {
        query: &query,
        extent: SearchExtent::Document,
    }];
    let limits = |documents: usize, decoded_bytes: u64| CandidateBatchLimits {
        documents,
        decoded_bytes,
    };
    assert_eq!(
        validate_candidate_plans(&[], limits(1, 1)),
        Err(IndexError::NoCandidatePlans)
    );
    assert_eq!(
        validate_candidate_plans(&plans, limits(0, 1)),
        Err(IndexError::DocumentLimit)
    );
    assert_eq!(
        validate_candidate_plans(&plans, limits(1, 0)),
        Err(IndexError::DecodedByteLimit)
    );
}

#[test]
fn candidates_outside_the_segment_are_errors() {
    let bases = [0u32, 6, 10];
    let mut documents = BTreeMap::new();
    assert_eq!(
        add_candidate_selection(
            &mut documents,
            Selection::Ids(vec![10]),
            SearchExtent::Document,
            Strategy::Trigram,
            2,
            Some(&bases),
        ),
        Err(IndexError::CandidateBlockBounds { id: 10, total: 10 })
    );
    assert_eq!(
        add_candidate_selection(
            &mut documents,
            Selection::Ids(vec![2]),
            SearchExtent::Document,
            Strategy::Sparse,
            2,
            None,
        ),
        Err(IndexError::CandidateDocumentBounds {
            id: 2,
            document_count: 2
        })
    );
    assert_eq!(
        add_candidate_selection(
            &mut documents,
            Selection::Ids(vec![1]),
            SearchExtent::Document,
            Strategy::Trigram,
            2,
            None,
        ),
        Err(IndexError::MissingBlockBases)
    );
}

fn round_trip(ids: &[u32], doc_count: u32) {
    let mut encoded = Vec::new();
    encode_delta_blocks(ids, &mut encoded);
    assert_eq!(
        encoded.len() as u64,
        encoded_len(ids),
        "length prediction must match the encoding"
    );
    let decoded = decode_delta_blocks(&encoded, ids.len() as u32, doc_count).unwrap();
    assert_eq!(decoded, ids);
}

#[test]
fn round_trips_every_shape() {
    round_trip(&[], 10);
    round_trip(&[0], 10);
    round_trip(&[9], 10);
    round_trip(&(0..128).collect::<Vec<_>>(), 200); // exactly one full block, width 1
    round_trip(&(0..129).collect::<Vec<_>>(), 200); // full block + 1
    round_trip(&(0..1000).collect::<Vec<_>>(), 1000); // dense: every doc
    round_trip(&[0, 1_000_000, 4_000_000 - 1], 4_000_000); // huge deltas
    let sparse: Vec<u32> = (0..3000).map(|i| i * 7 + 3).collect();
    round_trip(&sparse, 30_000);
    // adversarial widths: one huge delta inside an otherwise-dense block
    let mut mixed: Vec<u32> = (0..127).collect();
    mixed.push(3_999_999);
    round_trip(&mixed, 4_000_000);
}

#[test]
fn dense_lists_shrink_versus_fixed_width() {
    // 1000 consecutive ids in a 4M-doc segment: fixed-width pays 22
    // bits/id; deltas pay 1 bit/id plus headers.
    let ids: Vec<u32> = (500..1500).collect();
    let mut encoded = Vec::new();
    encode_delta_blocks(&ids, &mut encoded);
    assert!(
        encoded.len() < 1000 * 22 / 8 / 4,
        "expected a big win, got {} bytes",
        encoded.len()
    );
}

#[test]
fn corrupt_blocks_fail_loudly() {
    let ids: Vec<u32> = (0..300).map(|i| i * 3).collect();
    let mut encoded = Vec::new();
    encode_delta_blocks(&ids, &mut encoded);

    // truncated
    assert!(decode_delta_blocks(&encoded[..encoded.len() - 1], 300, 1000).is_err());
    // trailing garbage
    let mut long = encoded.clone();
    long.push(0);
    assert!(decode_delta_blocks(&long, 300, 1000).is_err());
    // invalid width header
    let mut bad = encoded.clone();
    bad[0] = 0;
    assert!(decode_delta_blocks(&bad, 300, 1000).is_err());
    bad[0] = 33;
    assert!(decode_delta_blocks(&bad, 300, 1000).is_err());
    // out-of-bounds id
    assert!(decode_delta_blocks(&encoded, 300, 500).is_err());
    // count larger than doc_count
    assert!(decode_delta_blocks(&encoded, 1001, 1000).is_err());
}

#[test]
fn delta_errors_say_what_is_wrong() {
    assert_eq!(decode_delta_blocks(&[], 1, 10), Err(IndexError::MissingWidth));
    assert_eq!(
        decode_delta_blocks(&[33], 1, 10),
        Err(IndexError::InvalidWidth { width: 33 })
    );
    assert_eq!(
        decode_delta_blocks(&[8], 1, 10),
        Err(IndexError::TruncatedBlock)
    );
    assert_eq!(
        decode_delta_blocks(&[8, 3, 0], 1, 10),
        Err(IndexError::TrailingBytes { extra: 1 })
    );
    assert_eq!(
        decode_delta_blocks(&[8, 12], 1, 10),
        Err(IndexError::IdOutOfBounds { id: 12 })
    );
}

fn tv(packed: u64) -> TermValue {
    TermValue { packed, len: None }
}

fn gram(offset: u64, count: u32) -> Resolved {
    Resolved::Gram {
        offset,
        count,
        len: u64::from(count),
    }
}

fn abc(packed: u64) -> QueryTerms {
    QueryTerms {
        grams: vec![b"abc".to_vec()],
        found: vec![Some(tv(packed))],
    }
}

#[test]
fn pack_round_trips() {
    let packed = pack_posting(123_456, 789).unwrap();
    assert_eq!(unpack_posting(packed), (123_456, 789));
    assert!(pack_posting(1 << 40, 1).is_err());
    assert!(pack_posting(0, 1 << 24).is_err());
    // MAX_POSTING_COUNT is exactly the largest packable count: an id
    // space capped there keeps every gram encodable.
    assert!(pack_posting(0, usize::try_from(MAX_POSTING_COUNT).unwrap()).is_ok());
}

#[test]
fn corrupt_singleton_ids_fail_loudly() {
    // count == 1 tags the offset as a doc id; an out-of-range id must
    // error, never silently shrink results.
    let lookup = abc(pack_posting(500, 1).expect("test setup failed"));
    let query = Query::Gram(b"abc".to_vec());
    let error = match resolve(&query, 100, Strategy::Sparse, &lookup) {
        Err(error) => error,
        Ok(_) => panic!("out-of-range singleton must error"),
    };
    assert!(error.message().contains("singleton"), "{error:?}");
    // One-document segments must validate too: count == 1 also satisfies
    // count >= doc_count, and the ALL shortcut must not mask corruption.
    assert!(resolve(&query, 1, Strategy::Sparse, &lookup).is_err());
    let valid = abc(pack_posting(0, 1).expect("test setup failed"));
    assert!(matches!(
        resolve(&query, 1, Strategy::Sparse, &valid).expect("resolve"),
        Resolved::Doc(0)
    ));
}

#[test]
fn absent_gram_collapses_and_to_none() {
    let q = Query::And(vec![
        Query::Gram(b"abc".to_vec()),
        Query::Gram(b"zzz".to_vec()),
    ]);
    let terms = QueryTerms {
        grams: vec![b"abc".to_vec(), b"zzz".to_vec()],
        found: vec![Some(tv(pack_posting(0, 2).expect("test setup failed"))), None],
    };
    let resolved = resolve(&q, 100, Strategy::Sparse, &terms).expect("resolve");
    assert!(matches!(resolved, Resolved::Nothing));
    let mut needed = BTreeMap::new();
    blocks_needed(&resolved, &mut needed);
    assert!(needed.is_empty());
}

#[test]
fn dense_gram_resolves_to_all_without_fetch() {
    // a gram in every doc constrains nothing: All, no block needed
    let query = Query::Gram(b"abc".to_vec());
    let lookup = abc(pack_posting(64, 100).expect("test setup failed"));
    let resolved = resolve(&query, 100, Strategy::Sparse, &lookup).expect("resolve");
    assert!(matches!(resolved, Resolved::All));
    let mut needed = BTreeMap::new();
    blocks_needed(&resolved, &mut needed);
    assert!(needed.is_empty());
    // one doc short of dense -> still a real constraint
    let lookup = abc(pack_posting(64, 99).expect("test setup failed"));
    assert!(matches!(
        resolve(&query, 100, Strategy::Sparse, &lookup).expect("resolve"),
        Resolved::Gram { count: 99, .. }
    ));
}

#[test]
fn and_prunes_to_rarest_grams() {
    let children = (0..12u64)
        .map(|i| gram(i * 100, 1000 - i as u32))
        .collect::<Vec<_>>();
    let Resolved::And(kept) = prune_and(children, Strategy::Sparse) else {
        panic!("expected And");
    };
    assert_eq!(kept.len(), SPARSE_MAX_GRAMS_PER_AND);
    // The rarest grams (highest offsets here) survive.
    assert!(kept.iter().all(|child| match child {
        Resolved::Gram { count, .. } => *count <= 1000 - 4,
        _ => false,
    }));
}

#[test]
fn block_and_keeps_up_to_sixty_four_grams() {
    let children = (0..80u64)
        .map(|offset| gram(offset, 1000 - offset as u32))
        .collect::<Vec<_>>();
    let Resolved::And(kept) = prune_and(children, Strategy::Trigram) else {
        panic!("expected And");
    };
    assert_eq!(kept.len(), BLOCK_MAX_GRAMS_PER_AND);
    assert!(kept.iter().all(|child| match child {
        Resolved::Gram { count, .. } => *count <= 1000 - 16,
        _ => false,
    }));
}

#[test]
fn eval_and_or() {
    let blocks = BTreeMap::from([
        (0u64, vec![1u32, 3, 5, 8]),
        (16, vec![3, 5, 7]),
        (32, vec![9]),
    ]);
    let and = Resolved::And(vec![gram(0, 4), gram(16, 3)]);
    let Selection::Ids(ids) = eval(&and, &blocks, &NoExpansion).unwrap() else {
        panic!("expected ids");
    };
    assert_eq!(ids, vec![3, 5]);

    let or = Resolved::Or(vec![and, gram(32, 1)]);
    let Selection::Ids(ids) = eval(&or, &blocks, &NoExpansion).unwrap() else {
        panic!("expected ids");
    };
    assert_eq!(ids, vec![3, 5, 9]);
}

#[test]
fn eval_all_passthrough() {
    let blocks = BTreeMap::new();
    assert!(matches!(
        eval(&Resolved::All, &blocks, &NoExpansion).unwrap(),
        Selection::All
    ));
    let and_of_all = Resolved::And(vec![Resolved::All]);
    assert!(matches!(
        eval(&and_of_all, &blocks, &NoExpansion).unwrap(),
        Selection::All
    ));
    let blocks = BTreeMap::from([(0u64, vec![1u32])]);
    let or_with_all = Resolved::Or(vec![gram(0, 1), Resolved::All]);
    assert!(matches!(
        eval(&or_with_all, &blocks, &NoExpansion).unwrap(),
        Selection::All
    ));
}

struct Neighbours;

impl Expand for Neighbours {
    fn accepts(&self, id: u32) -> bool {
        id < u32::MAX
    }

    fn range(&self, id: u32) -> (u32, u32) {
        self.expand(id)
    }

    fn expand(&self, id: u32) -> (u32, u32) {
        (id.saturating_sub(1), id + 1)
    }
}

#[test]
fn eval_expands_singletons_and_postings() {
    let blocks = BTreeMap::from([(0u64, vec![4u32, 8])]);
    let resolved = Resolved::Or(vec![Resolved::Doc(2), gram(0, 2)]);
    let Selection::Ids(ids) = eval(&resolved, &blocks, &Neighbours).unwrap() else {
        panic!("expected ids");
    };
    assert_eq!(ids, vec![1, 2, 3, 4, 5, 7, 8, 9]);
}

#[test]
fn eval_needs_every_block() {
    let blocks: BTreeMap<u64, Vec<u32>> = BTreeMap::new();
    assert!(matches!(
        eval(&gram(7, 2), &blocks, &NoExpansion),
        Err(IndexError::BlockNotFetched { offset: 7 })
    ));
}

#[test]
fn posting_blocks_round_trip_every_density_class() {
    let cases: Vec<(Vec<u32>, u32)> = vec![
        (vec![], 10),             // empty list
        (vec![3], 10),            // single
        (vec![0, 1, 2], 7),       // sparse (below half)
        ((0..5).collect(), 10),   // exactly half: stored as ids
        ((0..6).collect(), 10),   // just over half: complement
        ((0..9).collect(), 10),   // doc_count - 1: complement of one
        ((0..10).collect(), 10),  // fully dense: zero bytes
        (vec![0], 1),             // doc_count = 1, dense
        (vec![1, 3, 5, 7], 8),    // exactly half at even doc_count
        (vec![0, 2, 4, 6, 7], 8), // over half
    ];
    for (ids, doc_count) in cases {
        let mut buf = Vec::new();
        encode_posting_block(&mut buf, &ids, doc_count);
        assert_eq!(
            buf.len() as u64,
            posting_block_len(ids.len() as u32, doc_count),
            "len mismatch for {ids:?}/{doc_count}"
        );
        let decoded = decode_posting_block(&buf, ids.len() as u32, doc_count).unwrap();
        assert_eq!(decoded, ids, "round trip failed for doc_count {doc_count}");
    }
    // dense stores nothing
    let mut buf = Vec::new();
    encode_posting_block(&mut buf, &(0..10).collect::<Vec<_>>(), 10);
    assert!(buf.is_empty());
}

#[test]
fn posting_ids_are_as_wide_as_the_largest() {
    assert_eq!(posting_id_bits(1), 1);
    assert_eq!(posting_id_bits(256), 8);
    assert_eq!(posting_id_bits(257), 9);
    // more than half of the documents have the gram: the absent ones are stored
    assert_eq!(posting_block_len(99, 100), 1);
}

#[test]
fn posting_block_decode_rejects_corruption() {
    // wrong length
    assert!(decode_posting_block(&[0, 0, 0, 0], 2, 10).is_err());
    // count above doc_count
    assert!(decode_posting_block(&[], 11, 10).is_err());
    // out-of-bounds id (sparse class: 1 of 10 -> 4 bytes)
    assert!(decode_posting_block(&10u32.to_le_bytes(), 1, 10).is_err());
    // unsorted ids (2 of 10 -> stored as ids)
    let mut buf = Vec::new();
    buf.extend_from_slice(&5u32.to_le_bytes());
    buf.extend_from_slice(&3u32.to_le_bytes());
    assert!(decode_posting_block(&buf, 2, 10).is_err());
    // duplicate ids are not strictly ascending
    let mut buf = Vec::new();
    buf.extend_from_slice(&3u32.to_le_bytes());
    buf.extend_from_slice(&3u32.to_le_bytes());
    assert!(decode_posting_block(&buf, 2, 10).is_err());
}

#[test]
fn posting_block_errors_say_what_is_wrong() {
    assert_eq!(
        decode_posting_block(&[0x35], 2, 10),
        Err(IndexError::NotAscending)
    );
    assert_eq!(
        decode_posting_block(&[0x0a], 1, 10),
        Err(IndexError::IdOutOfBounds { id: 10 })
    );
    assert_eq!(
        decode_posting_block(&[], 11, 10),
        Err(IndexError::CountExceedsDocs {
            count: 11,
            doc_count: 10
        })
    );
    assert_eq!(
        decode_posting_block(&[0, 0], 1, 10),
        Err(IndexError::BlockLength { len: 2, expected: 1 })
    );
}
