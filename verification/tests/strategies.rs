//! Indexes of both strategies, from the documents to the candidates of a pattern.

use seagrep_index::candidate::{
    add_candidate_selection, bind_queries, build_block_bases, needed_blocks,
    visit_candidate_selections, CandidatePlan, SearchExtent, CANDIDATE_BLOCK_BYTES,
};
use seagrep_index::delta_blocks::decode_delta_blocks;
use seagrep_index::delta_postings::write_delta_postings;
use seagrep_index::dictionary::write_index;
use seagrep_index::eval::{
    blocks_needed, eval, resolve, NoExpansion, Resolved, Selection, TermValue,
};
use seagrep_index::format::{DocEntry, SegmentTables};
use seagrep_index::joining::{list_documents, merge_postings, VictimTerm, VictimTerms};
use seagrep_index::planner::{plan, planned_literals, GivenGrams, Trigrams};
use seagrep_index::posting_block::decode_posting_block;
use seagrep_index::postings::GramList;
use seagrep_index::query::{Query, Strategy};
use seagrep_index::remote_terms::QueryTerms;
use seagrep_index::program::{has_line_match, Program};
use std::collections::BTreeMap;

/// Grams of four bytes, each known by its hash.
fn grams(bytes: &[u8]) -> Vec<Vec<u8>> {
    bytes.windows(4).map(<[u8]>::to_vec).collect()
}

fn hash(gram: &[u8]) -> Vec<u8> {
    let mut hash = 0xcbf2_9ce4_8422_2325u64;
    for byte in gram {
        hash = (hash ^ u64::from(*byte)).wrapping_mul(0x0000_0100_0000_01b3);
    }
    hash.to_be_bytes().to_vec()
}

struct Sparse {
    lists: Vec<GramList>,
    values: Vec<TermValue>,
    blocks: Vec<u8>,
    documents: u32,
}

impl Sparse {
    fn write(lists: Vec<GramList>, documents: u32) -> Sparse {
        let (values, blocks) = write_delta_postings(&lists, documents).unwrap();
        Sparse {
            lists,
            values,
            blocks,
            documents,
        }
    }

    fn of(bodies: &[&[u8]]) -> Sparse {
        let mut posted: BTreeMap<Vec<u8>, Vec<u32>> = BTreeMap::new();
        for (document, body) in bodies.iter().enumerate() {
            for gram in grams(body) {
                let ids = posted.entry(hash(&gram)).or_default();
                if ids.last() != Some(&(document as u32)) {
                    ids.push(document as u32);
                }
            }
        }
        let lists = posted
            .into_iter()
            .map(|(gram, ids)| GramList { gram, ids })
            .collect();
        Sparse::write(lists, bodies.len() as u32)
    }

    fn terms(&self) -> Vec<VictimTerm> {
        self.lists
            .iter()
            .zip(&self.values)
            .map(|(list, value)| VictimTerm {
                gram: list.gram.clone(),
                packed: value.packed,
                len: value.len,
            })
            .collect()
    }

    fn value(&self, gram: &[u8]) -> Option<TermValue> {
        let key = hash(gram);
        let at = self.lists.iter().position(|list| list.gram == key)?;
        Some(TermValue {
            packed: self.values[at].packed,
            len: self.values[at].len,
        })
    }

    fn candidates(&self, pattern: &str) -> Vec<u32> {
        let literals = planned_literals(pattern).unwrap();
        let given = GivenGrams {
            grams: literals.iter().map(|literal| grams(literal)).collect(),
            literals,
        };
        let query = plan(pattern, &given).unwrap();
        let mut asked = Vec::new();
        grams_of(&query, &mut asked);
        let terms = QueryTerms {
            found: asked.iter().map(|gram| self.value(gram)).collect(),
            grams: asked,
        };
        let bound = resolve(&query, self.documents, Strategy::Sparse, &terms).unwrap();
        let mut needed = BTreeMap::new();
        blocks_needed(&bound, &mut needed);
        let mut decoded = BTreeMap::new();
        for (offset, (count, len)) in needed {
            let block = &self.blocks[offset as usize..][..len as usize];
            let ids = decode_delta_blocks(block, count, self.documents).unwrap();
            decoded.insert(offset, ids);
        }
        match eval(&bound, &decoded, &NoExpansion).unwrap() {
            Selection::All => (0..self.documents).collect(),
            Selection::Ids(ids) => ids,
        }
    }

    fn assert_finds_what_scans_find(&self, bodies: &[&[u8]]) {
        for pattern in [
            "needle",
            "need.*hay",
            "(needle|haystack)s?",
            "hay",
            "absent",
            "x+needle",
            ".*",
        ] {
            let candidates = self.candidates(pattern);
            let program = Program::compile(pattern).unwrap();
            let found = |document: &u32| has_line_match(&program, bodies[*document as usize]);
            let searched: Vec<u32> = candidates.iter().copied().filter(found).collect();
            let scanned: Vec<u32> = (0..bodies.len() as u32).filter(found).collect();
            assert_eq!(searched, scanned, "{pattern}");
        }
    }
}

fn grams_of(query: &Query, out: &mut Vec<Vec<u8>>) {
    match query {
        Query::Gram(gram) => out.push(gram.clone()),
        Query::And(children) | Query::Or(children) => {
            for child in children {
                grams_of(child, out);
            }
        }
        Query::All => {}
    }
}

const BODIES: [&[u8]; 6] = [
    b"a needle in a haystack",
    b"no match here",
    b"needles and more needles",
    b"",
    b"xxneedle, then hay",
    b"haystacks only",
];

#[test]
fn sparse_searches_equal_scans() {
    let index = Sparse::of(&BODIES);
    index.assert_finds_what_scans_find(&BODIES);
    assert_eq!(index.candidates("needle"), [0, 2, 4]);
    assert!(index.candidates("absent").is_empty());
}

#[test]
fn merged_sparse_searches_equal_scans() {
    let index = Sparse::of(&BODIES);
    // the third document is dead, and the others trade places
    let remap = vec![Some(4), Some(0), None, Some(1), Some(3), Some(2)];
    let mut kept: Vec<&[u8]> = vec![b""; 5];
    for (old, new) in remap.iter().enumerate() {
        if let Some(new) = new {
            kept[*new as usize] = BODIES[old];
        }
    }
    let victim = VictimTerms {
        terms: index.terms(),
        postings_len: index.blocks.len() as u64,
        postings: index.blocks.clone(),
        id_space: 6,
        remap,
        old_bases: Vec::new(),
    };
    let lists = merge_postings(Strategy::Sparse, &[victim], &[]).unwrap();
    let merged = Sparse::write(lists, 5);
    merged.assert_finds_what_scans_find(&kept);
    assert_eq!(merged.candidates("needle"), [3, 4]);
}

#[test]
fn delta_postings_lead_to_their_lists() {
    let index = Sparse::of(&BODIES);
    for (list, value) in index.lists.iter().zip(&index.values) {
        let terms = QueryTerms {
            grams: vec![list.gram.clone()],
            found: vec![Some(TermValue {
                packed: value.packed,
                len: value.len,
            })],
        };
        let query = Query::Gram(list.gram.clone());
        match resolve(&query, 6, Strategy::Sparse, &terms).unwrap() {
            Resolved::All => assert_eq!(list.ids.len(), 6),
            Resolved::Doc(id) => assert_eq!(list.ids, [id]),
            Resolved::Gram { offset, count, len } => {
                let block = &index.blocks[offset as usize..][..len as usize];
                assert_eq!(decode_delta_blocks(block, count, 6).unwrap(), list.ids);
            }
            other => panic!("{other:?}"),
        }
    }
}

#[test]
fn extents_select_the_blocks_of_a_match() {
    let block = CANDIDATE_BLOCK_BYTES;
    let mut body = vec![b'.'; 5 * block];
    for line in body.chunks_mut(1_000) {
        line[0] = b'\n';
    }
    // one match lies across two blocks, the other within one
    body[2 * block - 3..2 * block + 3].copy_from_slice(b"needle");
    body[4 * block + 10..4 * block + 16].copy_from_slice(b"needle");
    let tables = SegmentTables {
        sources: Vec::new(),
        documents: vec![DocEntry {
            display_key: "long".into(),
            source_id: 0,
            member_path: None,
            decoded_size: body.len() as u64,
            first_block: 0,
            block_offset: 0,
            max_line_len: 1_000,
            block_newlines: Vec::new(),
        }],
        blocks: Vec::new(),
    };
    let bases = build_block_bases(&tables).unwrap();
    let index = write_index(&list_documents(&[body], &bases), 5).unwrap();
    let query = plan("needle", &Trigrams).unwrap();
    for extent in [
        SearchExtent::Bytes { span: 6 },
        SearchExtent::Lines,
        SearchExtent::Document,
    ] {
        let plans = [CandidatePlan {
            query: &query,
            extent,
        }];
        let bound = bind_queries(&plans, 5, Strategy::Trigram, &index.dictionary).unwrap();
        let mut decoded = BTreeMap::new();
        for (offset, (count, len)) in needed_blocks(&bound) {
            let list = &index.postings[offset as usize..][..len as usize];
            decoded.insert(offset, decode_posting_block(list, count, 5).unwrap());
        }
        let selections = visit_candidate_selections(
            &plans,
            &bound,
            Strategy::Trigram,
            &decoded,
            &bases,
            &tables,
        )
        .unwrap();
        let mut documents = BTreeMap::new();
        for selection in selections {
            add_candidate_selection(
                &mut documents,
                selection,
                extent,
                Strategy::Trigram,
                1,
                Some(&bases),
            )
            .unwrap();
        }
        match &documents[&0] {
            None => assert_eq!(extent, SearchExtent::Document),
            Some(ranges) => {
                for touched in [1, 2, 4] {
                    assert!(
                        ranges
                            .iter()
                            .any(|range| range.start <= touched && touched < range.end),
                        "{extent:?} {touched}"
                    );
                }
            }
        }
    }
}
