//! Dictionaries and posting lists, from the documents to a lookup and through a merge; and what
//! is measured and read of documents in parts.

use seagrep_index::collect::{sort_collected, Collected};
use seagrep_index::delta_postings::write_delta_postings;
use seagrep_index::dictionary::{write_index, GramDictionary, TermMap, SHARDED_GRAMS};
use seagrep_index::error::IndexError;
use seagrep_index::eval::{TermLookup, TermValue};
use seagrep_index::events::{LineEvent, LineKind};
use seagrep_index::fetch::{DocumentRegion, RegionProgram};
use seagrep_index::joining::{
    join_entries, list_documents, merge_postings, VictimTerm, VictimTerms,
};
use seagrep_index::lines::{measure_lines, read_range};
use seagrep_index::matches::{find_region_matches, find_whole_matches, FoundMatch};
use seagrep_index::pack::{ByteRange, DocumentBlock};
use seagrep_index::pack_build::{decode_block, PackBuilder};
use seagrep_index::posting_block::{decode_posting_block, posting_block_len};
use seagrep_index::postings::GramList;
use seagrep_index::query::Strategy;
use seagrep_index::search::FILE_MATCH_CHUNK;
use seagrep_index::source::SourceIdentity;
use seagrep_index::program::Program;
use seagrep_index::stream::has_stream_match;
use seagrep_index::terms::{can_open_map, TermBuilder};
use seagrep_index::update::{duplicate_message, mismatch_message};
use seagrep_index::windows::{build_window, build_windows, window_seed};
use std::collections::BTreeMap;

fn terms(entries: &[(&[u8], u64)]) -> Vec<(Vec<u8>, u64)> {
    entries
        .iter()
        .map(|(gram, value)| (gram.to_vec(), *value))
        .collect()
}

fn lists(entries: &[(&[u8], &[u32])]) -> Vec<GramList> {
    entries
        .iter()
        .map(|(gram, ids)| GramList {
            gram: gram.to_vec(),
            ids: ids.to_vec(),
        })
        .collect()
}

fn shown(lists: &[GramList]) -> Vec<(Vec<u8>, Vec<u32>)> {
    lists
        .iter()
        .map(|list| (list.gram.clone(), list.ids.clone()))
        .collect()
}

#[test]
fn written_grams_are_found_again() {
    let entries = terms(&[(b"abc", 1), (b"abd", 7), (b"zzz", 9)]);
    for sharded in [false, true] {
        let dictionary = GramDictionary::build(&entries, sharded).unwrap();
        assert_eq!(dictionary.get(b"abc"), Some(1));
        assert_eq!(dictionary.get(b"abd"), Some(7));
        assert_eq!(dictionary.get(b"zzz"), Some(9));
        assert_eq!(dictionary.get(b"abe"), None);
        assert_eq!(dictionary.get(b"zz"), None);
        assert_eq!(dictionary.len(), Some(3));
        assert_eq!(dictionary.entries(), entries);
        assert_eq!(
            dictionary.lookup(b"abd"),
            Ok(Some(TermValue {
                packed: 7,
                len: None
            }))
        );
        let bytes = dictionary.into_bytes();
        let map = TermMap::open(&bytes, Strategy::Trigram).unwrap();
        assert_eq!(matches!(map, TermMap::Shards(_)), sharded);
        assert_eq!(map.get(&bytes, b"abd", 0), Ok(Some(7)));
        assert_eq!(map.get(&bytes, b"abf", 0), Ok(None));
        assert_eq!(map.len(&bytes), Some(3));
        assert_eq!(map.entries(&bytes).unwrap(), entries);
    }
    let empty = GramDictionary::build(&[], false).unwrap();
    assert_eq!((empty.len(), empty.get(b"abc")), (Some(0), None));
}

#[test]
fn dictionaries_refuse_grams_out_of_order() {
    let build = |entries: &[(&[u8], u64)], sharded| {
        GramDictionary::build(&terms(entries), sharded).map(|_| ())
    };
    assert_eq!(
        build(&[(b"abd", 1), (b"abc", 2)], false),
        Err(IndexError::TermOrder)
    );
    assert_eq!(
        build(&[(b"abc", 1), (b"abc", 2)], true),
        Err(IndexError::TermOrder)
    );
    assert_eq!(
        build(&[(b"abcd", 1)], true),
        Err(IndexError::TrigramLength)
    );
    assert_eq!(build(&[(b"abcd", 1)], false), Ok(()));
}

#[test]
fn sparse_tables_are_looked_up_by_hash() {
    let mut builder = TermBuilder::new(Strategy::Sparse, false).unwrap();
    for (hash, value) in [(3u64, 30u64), (500, 31), (u64::MAX, 32)] {
        builder.insert(&hash.to_be_bytes(), value).unwrap();
    }
    let (bytes, _) = builder.finish();
    let map = TermMap::open(&bytes, Strategy::Sparse).unwrap();
    assert_eq!(map.get(&bytes, b"any gram", 500), Ok(Some(31)));
    assert_eq!(map.get(&bytes, b"any gram", 501), Ok(None));
    assert_eq!(map.len(&bytes), Some(3));
    assert_eq!(
        map.entries(&bytes).unwrap(),
        [
            (3u64.to_be_bytes().to_vec(), 30),
            (500u64.to_be_bytes().to_vec(), 31),
            (u64::MAX.to_be_bytes().to_vec(), 32),
        ]
    );
    assert_eq!(
        TermMap::open(&bytes[..4], Strategy::Sparse).map(|_| ()),
        Err(IndexError::TableTruncated)
    );
}

#[test]
fn entries_are_joined_by_gram() {
    let joined = join_entries(vec![
        (b"bcd".to_vec(), vec![4, 1]),
        (b"abc".to_vec(), vec![2]),
        (b"bcd".to_vec(), vec![1, 9]),
        (b"zzz".to_vec(), vec![]),
        (b"ab".to_vec(), vec![3]),
    ]);
    assert_eq!(
        shown(&joined),
        [
            (b"ab".to_vec(), vec![3]),
            (b"abc".to_vec(), vec![2]),
            (b"bcd".to_vec(), vec![1, 4, 9]),
        ]
    );
    assert!(join_entries(Vec::new()).is_empty());
}

#[test]
fn documents_are_listed_under_their_trigrams() {
    let bodies = [b"abcd".to_vec(), b"bcde".to_vec(), Vec::new()];
    let listed = list_documents(&bodies, &[0, 1, 2, 2]);
    assert_eq!(
        shown(&listed),
        [
            (b"abc".to_vec(), vec![0]),
            (b"bcd".to_vec(), vec![0, 1]),
            (b"cde".to_vec(), vec![1]),
        ]
    );
}

#[test]
fn written_indexes_lead_to_their_lists() {
    let given = lists(&[(b"abc", &[0]), (b"bcd", &[0, 2, 5]), (b"cde", &[1, 2])]);
    let index = write_index(&given, 6).unwrap();
    assert_eq!(index.dictionary.len(), Some(3));
    for list in &given {
        let packed = index.dictionary.get(&list.gram).unwrap();
        let (offset, count) = seagrep_index::eval::unpack_posting(packed);
        if count == 1 {
            assert_eq!(list.ids, [offset as u32]);
        } else {
            let len = posting_block_len(count, 6) as usize;
            let block = &index.postings[offset as usize..][..len];
            assert_eq!(decode_posting_block(block, count, 6).unwrap(), list.ids);
        }
    }
    assert_eq!(index.dictionary.get(b"xyz"), None);
}

#[test]
fn large_dictionaries_are_sharded() {
    let many: Vec<GramList> = (0..SHARDED_GRAMS as u32)
        .map(|k| GramList {
            gram: k.to_be_bytes()[1..].to_vec(),
            ids: vec![k % 7],
        })
        .collect();
    let sharded = |count: usize| {
        let bytes = write_index(&many[..count], 7)
            .unwrap()
            .dictionary
            .into_bytes();
        matches!(
            TermMap::open(&bytes, Strategy::Trigram),
            Ok(TermMap::Shards(_))
        )
    };
    assert!(sharded(SHARDED_GRAMS));
    assert!(!sharded(SHARDED_GRAMS - 1));
}

fn victim(given: &[GramList], id_space: u32, remap: &[Option<u32>], bases: &[u32]) -> VictimTerms {
    let index = write_index(given, id_space).unwrap();
    VictimTerms {
        terms: index
            .dictionary
            .entries()
            .into_iter()
            .map(|(gram, packed)| VictimTerm {
                gram,
                packed,
                len: None,
            })
            .collect(),
        postings_len: index.postings.len() as u64,
        postings: index.postings,
        id_space,
        remap: remap.to_vec(),
        old_bases: bases.to_vec(),
    }
}

#[test]
fn merged_segments_post_their_live_documents() {
    // Two documents of two blocks each; the second is dead.
    let first = victim(
        &lists(&[(b"abc", &[0, 1, 3]), (b"bcd", &[2])]),
        4,
        &[Some(1), None],
        &[0, 2, 4],
    );
    // One document of one block, which comes first in the new segment.
    let second = victim(
        &lists(&[(b"abc", &[0]), (b"xyz", &[0])]),
        1,
        &[Some(0)],
        &[0, 1],
    );
    let merged = merge_postings(Strategy::Trigram, &[first, second], &[0, 1, 3]).unwrap();
    assert_eq!(
        shown(&merged),
        [
            (b"abc".to_vec(), vec![0, 1, 2]),
            (b"xyz".to_vec(), vec![0]),
        ]
    );
    let mut damaged = victim(&lists(&[(b"abc", &[0, 1])]), 2, &[Some(0)], &[0, 2]);
    damaged.terms[0].gram = b"abcdefghi".to_vec();
    assert!(merge_postings(Strategy::Trigram, &[damaged], &[0, 2]).is_err());
}

#[test]
fn sparse_segments_are_merged_from_delta_blocks() {
    let hashes: Vec<[u8; 8]> = [5u64, 6, 7].iter().map(|hash| hash.to_be_bytes()).collect();
    let given = lists(&[
        (&hashes[0], &[0, 2, 3]),
        (&hashes[1], &[1]),
        (&hashes[2], &[1, 3]),
    ]);
    let (values, blocks) = write_delta_postings(&given, 4).unwrap();
    assert_eq!(values.len(), 3);
    assert_eq!(values[1].len, Some(0));
    let merged = merge_postings(
        Strategy::Sparse,
        &[VictimTerms {
            terms: given
                .iter()
                .zip(values)
                .map(|(list, value)| VictimTerm {
                    gram: list.gram.clone(),
                    packed: value.packed,
                    len: value.len,
                })
                .collect(),
            postings_len: blocks.len() as u64,
            postings: blocks,
            id_space: 4,
            remap: vec![Some(3), None, Some(0), Some(1)],
            old_bases: Vec::new(),
        }],
        &[],
    )
    .unwrap();
    assert_eq!(
        shown(&merged),
        [
            (hashes[0].to_vec(), vec![0, 1, 3]),
            (hashes[2].to_vec(), vec![1]),
        ]
    );
}

#[test]
fn collected_lines_of_one_place_are_sorted_by_text() {
    let line = |text: &[u8]| Collected {
        key: "a.zip!/m".into(),
        event: LineEvent {
            line: 1,
            kind: LineKind::Match,
            offset: 0,
            text: text.to_vec(),
            submatches: Vec::new(),
        },
    };
    let sorted = sort_collected(vec![line(b"b"), line(b"a"), line(b"ab"), line(b"")]);
    let texts: Vec<&[u8]> = sorted.iter().map(|line| line.event.text.as_slice()).collect();
    assert_eq!(texts, [&b""[..], b"a", b"ab", b"b"]);
}

#[test]
fn chunked_scans_find_matches_across_chunks() {
    let program = Program::compile("needle").unwrap();
    let chunk = FILE_MATCH_CHUNK as usize;
    for at in [0, chunk - 6, chunk - 3, chunk, 2 * chunk - 1] {
        let mut document = vec![b'.'; 2 * chunk + 10];
        document[at..at + 6].copy_from_slice(b"needle");
        assert_eq!(has_stream_match(&program, &document, 6), Ok(true), "{at}");
        assert!(program.is_match(&document));
    }
    let document = vec![b'.'; 2 * chunk + 10];
    assert_eq!(has_stream_match(&program, &document, 6), Ok(false));
    assert_eq!(has_stream_match(&program, b"", 6), Ok(false));
    assert!(!program.is_match(&document));
    assert_eq!(
        has_stream_match(&program, b"x", 2 * chunk),
        Err(IndexError::StreamOverlap)
    );
}

#[test]
fn blocks_are_full_and_packs_end_at_their_target() {
    let mut builder = PackBuilder::new(4, u64::MAX).unwrap();
    builder.append(b"abcdef").unwrap();
    builder.append(b"ghi").unwrap();
    let built = builder.finish().unwrap();
    let sizes: Vec<u32> = built.blocks.iter().map(|block| block.decoded_len).collect();
    assert_eq!(sizes, [4, 4, 1]);
    assert_eq!(built.packs.len(), 1);
    let frame = |at: usize| {
        let block = &built.blocks[at];
        &built.packs[0].bytes[block.offset as usize..][..block.compressed_len as usize]
    };
    assert_ne!(frame(1), b"efgh");
    assert_eq!(decode_block(&built.blocks[1], frame(1)).unwrap(), b"efgh");
    // A pack of one byte holds one block, however large.
    let mut builder = PackBuilder::new(4, 1).unwrap();
    builder.append(b"abcdefghi").unwrap();
    let built = builder.finish().unwrap();
    assert_eq!(built.packs.len(), 3);
    assert_eq!(built.blocks.iter().map(|block| block.pack).collect::<Vec<_>>(), [0, 1, 2]);
}

#[test]
fn ranges_are_read_from_the_blocks_they_touch() {
    let parts = [
        DocumentBlock {
            block_id: 7,
            start: 0,
            offset: 2,
            len: 3,
        },
        DocumentBlock {
            block_id: 8,
            start: 3,
            offset: 0,
            len: 4,
        },
    ];
    let mut decoded = BTreeMap::new();
    decoded.insert(8usize, b"defg".to_vec());
    let range = |start, end| ByteRange { start, end };
    assert_eq!(read_range(&parts, &decoded, range(4, 7)).unwrap(), b"efg");
    assert_eq!(
        read_range(&parts, &decoded, range(2, 7)),
        Err(IndexError::BlockNotDecoded { block: 7 })
    );
    decoded.insert(7, b"--abc".to_vec());
    assert_eq!(read_range(&parts, &decoded, range(2, 7)).unwrap(), b"cdefg");
}

#[test]
fn lines_are_measured() {
    assert_eq!(measure_lines(b""), (0, vec![]));
    assert_eq!(measure_lines(b"ab\ncdef\n\ng"), (4, vec![3]));
    let mut body = vec![b'x'; 131_072 + 5];
    body[131_071] = b'\n';
    body[131_073] = b'\n';
    assert_eq!(measure_lines(&body), (131_071, vec![1, 1]));
}

fn hits(bytes: &[u8], literal: &[u8]) -> Vec<FoundMatch> {
    (0..bytes.len())
        .filter(|at| bytes[*at..].starts_with(literal))
        .map(|start| FoundMatch {
            pattern: 0,
            start,
            end: start + literal.len(),
            canonical_span_known: true,
        })
        .collect()
}

#[test]
fn regions_report_what_whole_documents_report() {
    let bytes = b"one needle\ntwo\nneedle and needle\nlast".to_vec();
    let region = |start: usize, end: usize, line, line_offset| DocumentRegion {
        start: start as u64,
        line,
        line_offset,
        bytes: bytes[start..end].to_vec(),
        program: RegionProgram::Regional,
    };
    // The regions overlap, come out of order and skip what has no match.
    let regions = [region(15, 33, 3, 15), region(2, 11, 1, 0), region(20, 33, 3, 15)];
    let found: Vec<Vec<FoundMatch>> = regions
        .iter()
        .map(|region| hits(&region.bytes, b"needle"))
        .collect();
    for max_count in [None, Some(1), Some(2), Some(0)] {
        assert_eq!(
            find_region_matches(&regions, bytes.len() as u64, &found, max_count),
            find_whole_matches(&bytes, &hits(&bytes, b"needle"), max_count)
        );
    }
}

#[test]
fn windows_are_cut_from_their_seeds() {
    let mut bytes = vec![b'.'; 300];
    bytes[40] = b'\n';
    bytes[250] = b'\n';
    bytes[150..156].copy_from_slice(b"needle");
    let size = bytes.len() as u64;
    let matches = find_whole_matches(&bytes, &hits(&bytes, b"needle"), None);
    for max_bytes in [1, 4, 6, 20, 90, 250] {
        let whole = build_windows(&matches, size, max_bytes, &bytes).unwrap();
        let seed = window_seed(&matches, 0, 1, size, max_bytes).unwrap();
        let part = &bytes[seed.start as usize..seed.end as usize];
        let cut = build_window(&matches, 0, 1, size, max_bytes, seed.start, part).unwrap();
        assert_eq!(whole, [cut], "{max_bytes}");
    }
}

#[test]
fn refusals_name_what_was_refused() {
    let object = |key: &str| (key.to_owned(), "v".to_owned(), 0u64);
    assert_eq!(
        duplicate_message(&[object("a"), object("b"), object("b")], 2),
        "duplicate listing key b"
    );
    let local = |prefix: &str| SourceIdentity::Local {
        prefix: prefix.to_owned(),
    };
    assert_eq!(
        mismatch_message(&local("/a/"), &local("/b/")),
        "index was built for local directory /a/, not local directory /b/; \
         use --rebuild to replace it"
    );
}

#[test]
fn bytes_that_are_no_map_are_refused() {
    let refused = |bytes: &[u8]| TermMap::open(bytes, Strategy::Trigram).map(|_| ()).err();
    assert_eq!(refused(b""), Some(IndexError::NotAMap));
    assert_eq!(refused(b"no dictionary"), Some(IndexError::NotAMap));

    let entries = terms(&[(b"abc", 1), (b"abd", 7), (b"zzz", 9)]);
    let single = GramDictionary::build(&entries, false).unwrap().into_bytes();
    assert!(can_open_map(&single));
    assert_eq!(refused(&single), None);
    assert_eq!(refused(&single[..35]), Some(IndexError::NotAMap));
    for version in [0, 4] {
        let mut other = single.clone();
        other[0] = version;
        assert!(!can_open_map(&other));
        assert_eq!(refused(&other), Some(IndexError::NotAMap));
    }
    let mut rootless = single.clone();
    let root = rootless.len() - 12;
    rootless[root..root + 8].fill(0);
    assert_eq!(refused(&rootless), Some(IndexError::NotAMap));
    let empty = GramDictionary::build(&[], false).unwrap().into_bytes();
    assert_eq!(refused(&empty), None);

    // a shard that is damaged is as bad as a single map
    let sharded = GramDictionary::build(&entries, true).unwrap().into_bytes();
    let Ok(TermMap::Shards(ranges)) = TermMap::open(&sharded, Strategy::Trigram) else {
        panic!("expected shards")
    };
    let mut damaged = sharded.clone();
    damaged[ranges[usize::from(b'z')].0] = 9;
    assert_eq!(refused(&damaged), Some(IndexError::NotAMap));
    assert_eq!(
        IndexError::NotAMap.message(),
        "term dictionary is not a map"
    );
    assert_eq!(
        IndexError::SuffixLength.message(),
        "trigram suffix has invalid length"
    );
}
