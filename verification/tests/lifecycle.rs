//! Whole indexes, held in memory: built, updated, compacted and searched with the library's
//! functions.

use seagrep_index::addresses::{
    candidate_batch, group_addresses, live_ids, segment_requests, DocAddress,
};
use seagrep_index::assemble::UpdateRun;
use seagrep_index::candidate::{
    bind_queries, build_block_bases, get_block_document, needed_blocks,
    visit_candidate_selections, CandidatePlan, SearchExtent,
};
use seagrep_index::collect::{sort_collected, Collected, LineCollector};
use seagrep_index::compact::{
    merge_requests, place_documents, plan_merge, select_requests, MERGE_POSTINGS_CAP,
    SEGMENT_DOC_CAP,
};
use seagrep_index::decode::{
    display_key, pack_documents, sort_documents, DocumentName, DocumentSink,
};
use seagrep_index::dictionary::{write_index, TermMap};
use seagrep_index::digest::sha256_hex;
use seagrep_index::documents::plan_documents;
use seagrep_index::error::IndexError;
use seagrep_index::eval::{unpack_posting, Selection, TermValue};
use seagrep_index::events::{LineEvent, LineKind, SubMatch};
use seagrep_index::format::{DeadSet, SegmentTables, SourceEncoding};
use seagrep_index::ingest::{ingest_source, SourceOutcome};
use seagrep_index::joining::{list_documents, merge_postings, VictimTerm, VictimTerms};
use seagrep_index::lines::read_range;
use seagrep_index::local::{content_version, SourceObject};
use seagrep_index::names::{dead_name, pack_blob, segment_blob};
use seagrep_index::pack::{request_windows, ByteRange, PackRequest};
use seagrep_index::pack_build::{decode_block, BuiltPacks, PackBuilder};
use seagrep_index::planner::{plan, Trigrams};
use seagrep_index::posting_block::{decode_posting_block, posting_block_len};
use seagrep_index::postings::{block_trigrams, write_postings, GramList};
use seagrep_index::publish::{
    check_publish, random_seg_id, written_meta, SegmentSplits, WrittenBlob,
};
use seagrep_index::query::{Query, Strategy};
use seagrep_index::remote_terms::{collect_grams, QueryTerms};
use seagrep_index::run::{
    batch_mode, index_stats, total_docs, wants_matches, BatchLog, BatchMode, SearchRun, SearchStats,
};
use seagrep_index::search::{
    BatchEnd, IndexChanged, KeyScope, NullSink, PatternKind, SinkFlow,
};
use seagrep_index::segment::{
    garbage, meta_blobs, validate_segment_tables, SegmentList, SegmentMeta, INDEX_FORMAT,
};
use seagrep_index::source::SourceIdentity;
use seagrep_index::program::{has_line_match, Program};
use seagrep_index::update::{
    adopt_root, plan_update, root_unchanged, segment_doc_count, update_report, ListedObject,
    RootState, SegmentAction, UpdateFlags, UpdateReport, SEGMENT_COUNT_TARGET,
};
use std::collections::{BTreeMap, BTreeSet};

fn test_source() -> SourceIdentity {
    SourceIdentity::Local {
        prefix: "/test/".into(),
    }
}

#[derive(Default)]
struct Bucket {
    objects: BTreeMap<String, Vec<u8>>,
    /// The members of those objects that are archives.
    archives: BTreeMap<String, Vec<(String, Vec<u8>)>>,
}

impl Bucket {
    fn put(&mut self, key: &str, body: &[u8]) {
        self.objects.insert(key.to_owned(), body.to_vec());
    }

    fn put_archive(&mut self, key: &str, members: &[(&str, &[u8])]) {
        let members: Vec<(String, Vec<u8>)> = members
            .iter()
            .map(|(path, body)| (path.to_string(), body.to_vec()))
            .collect();
        self.put(key, format!("{members:?}").as_bytes());
        self.archives.insert(key.to_owned(), members);
    }

    fn delete(&mut self, key: &str) {
        self.objects.remove(key);
        self.archives.remove(key);
    }

    fn listing(&self) -> Vec<ListedObject> {
        self.objects
            .iter()
            .map(|(key, body)| (key.clone(), content_version(body), body.len() as u64))
            .collect()
    }

    /// The objects' content, but for those that start like a compressed file and are none.
    fn read(&self, key: &str) -> SourceBody {
        let body = &self.objects[key];
        if let Some(members) = self.archives.get(key) {
            return SourceBody::Archive(members.clone());
        }
        if body.starts_with(&[0x1f, 0x8b]) {
            SourceBody::Undecodable
        } else {
            SourceBody::Text(body.clone())
        }
    }

    fn reindex(&self, index: &mut Index) -> UpdateReport {
        index
            .update(&self.listing(), false, &mut |key| self.read(key))
            .unwrap()
    }
}

enum SourceBody {
    Text(Vec<u8>),
    /// The members of an archive.
    Archive(Vec<(String, Vec<u8>)>),
    Undecodable,
    Missing,
}

/// Grams and the blocks that have them.
fn listed(lists: &[GramList]) -> Vec<(&[u8], &[u32])> {
    lists
        .iter()
        .map(|list| (list.gram.as_slice(), list.ids.as_slice()))
        .collect()
}

struct Index {
    root: RootState,
    root_version: u64,
    dead: Vec<DeadSet>,
    tables: BTreeMap<String, SegmentTables>,
    blobs: BTreeMap<String, Vec<u8>>,
    pack_reads: usize,
    purge_deleted: bool,
    /// What the last update deleted.
    deleted: Vec<String>,
}

impl Index {
    fn new() -> Index {
        Index {
            root: RootState::Absent,
            root_version: 0,
            dead: Vec::new(),
            tables: BTreeMap::new(),
            blobs: BTreeMap::new(),
            pack_reads: 0,
            purge_deleted: false,
            deleted: Vec::new(),
        }
    }

    fn metas(&self) -> &[SegmentMeta] {
        match &self.root {
            RootState::Loaded(list) => &list.segments,
            _ => &[],
        }
    }

    fn blob(&self, meta: &SegmentMeta, name: &str) -> &[u8] {
        &self.blobs[&segment_blob(&meta.seg_id, name)]
    }

    fn put_segment(
        &mut self,
        tables: SegmentTables,
        built: BuiltPacks,
        lists: &[GramList],
    ) -> SegmentMeta {
        let packs: Vec<_> = built.packs.iter().map(|pack| pack.meta()).collect();
        check_publish(&tables, &packs).unwrap();
        let bases = build_block_bases(&tables).unwrap();
        let written_index = write_index(lists, *bases.last().unwrap()).unwrap();
        let terms = written_index.dictionary.into_bytes();
        let blocks = written_index.postings;
        let docs = format!("{tables:?}").into_bytes();
        let written = |bytes: &[u8]| WrittenBlob {
            len: bytes.len() as u64,
            hash: sha256_hex(bytes),
        };
        let meta = written_meta(
            random_seg_id().unwrap(),
            &tables,
            packs,
            written(&terms),
            String::new(),
            written(&blocks),
            written(&docs),
        );
        for pack in built.packs {
            self.blobs.insert(pack_blob(&pack.hash), pack.bytes);
        }
        for (name, bytes) in [
            ("terms.fst", terms),
            ("postings.bin", blocks),
            ("docs.bin", docs),
        ] {
            self.blobs.insert(segment_blob(&meta.seg_id, name), bytes);
        }
        validate_segment_tables(&meta, &tables).unwrap();
        self.tables.insert(meta.seg_id.clone(), tables);
        meta
    }

    fn build(
        &mut self,
        objects: &[ListedObject],
        read: &mut dyn FnMut(&str) -> SourceBody,
    ) -> SegmentMeta {
        let mut tables = SegmentTables {
            sources: Vec::new(),
            documents: Vec::new(),
            blocks: Vec::new(),
        };
        let mut builder = PackBuilder::production();
        let mut bodies = Vec::new();
        for (key, version, size) in objects {
            let object = SourceObject {
                key: key.clone(),
                version: version.clone(),
                encoded_size: *size,
            };
            let decoded = match read(key) {
                SourceBody::Text(body) => Ok((SourceEncoding::Raw, vec![(None, body)])),
                SourceBody::Archive(members) => {
                    let members = members.into_iter();
                    Ok((
                        SourceEncoding::Zip,
                        members.map(|(path, body)| (Some(path), body)).collect(),
                    ))
                }
                SourceBody::Undecodable => Err(SourceOutcome::Failed),
                SourceBody::Missing => Err(SourceOutcome::Missing),
            };
            let outcome = match decoded {
                Ok((encoding, documents)) => {
                    let mut sink = DocumentSink::new(None);
                    for (member_path, body) in documents {
                        sink.begin(DocumentName {
                            display_key: display_key(key, member_path.as_deref()),
                            member_path,
                        })
                        .unwrap();
                        sink.write(&body).unwrap();
                        sink.finish().unwrap();
                    }
                    let sorted = sort_documents(sink.documents);
                    let source_id = tables.sources.len() as u32;
                    let documents = pack_documents(&mut builder, source_id, &sorted).unwrap();
                    bodies.extend(sorted.into_iter().map(|document| document.bytes));
                    SourceOutcome::Decoded {
                        encoding,
                        documents,
                    }
                }
                Err(outcome) => outcome,
            };
            ingest_source(&mut tables, &object, outcome, None).unwrap();
        }
        let built = builder.finish().unwrap();
        tables.blocks = built.blocks.clone();
        let bases = build_block_bases(&tables).unwrap();
        let lists = list_documents(&bodies, &bases);
        self.put_segment(tables, built, &lists)
    }

    /// The decoded bytes of documents, by where their request says they belong.
    fn read_packs(
        &mut self,
        metas: &[SegmentMeta],
        segment: usize,
        requests: &[PackRequest],
    ) -> BTreeMap<usize, Vec<u8>> {
        let meta = &metas[segment];
        let blocks = &self.tables[&meta.seg_id].blocks;
        let mut bodies = BTreeMap::new();
        for (start, end) in request_windows(requests) {
            let window = &requests[start..end];
            let (parts, ids) = plan_documents(window, blocks).unwrap();
            if !ids.is_empty() {
                self.pack_reads += 1;
            }
            let mut decoded = BTreeMap::new();
            for id in ids {
                let block = &blocks[id];
                let pack = &self.blobs[&pack_blob(&meta.packs[block.pack as usize].hash)];
                let frame = &pack[block.offset as usize..][..block.compressed_len as usize];
                decoded.insert(id, decode_block(block, frame).unwrap());
            }
            for (request, parts) in window.iter().zip(&parts) {
                let range = ByteRange {
                    start: 0,
                    end: request.decoded_size,
                };
                bodies.insert(request.index, read_range(parts, &decoded, range).unwrap());
            }
        }
        bodies
    }

    fn merge(&mut self, metas: &[SegmentMeta], dead: &[DeadSet]) -> SegmentMeta {
        let tables: Vec<SegmentTables> = metas
            .iter()
            .map(|meta| self.tables.remove(&meta.seg_id).unwrap())
            .collect();
        let merged = plan_merge(&tables, dead).unwrap();
        for (meta, tables) in metas.iter().zip(tables) {
            self.tables.insert(meta.seg_id.clone(), tables);
        }
        let requests = merge_requests(&merged.tables);
        let mut bodies = BTreeMap::new();
        for segment in 0..metas.len() {
            let selected = select_requests(&requests, &merged.documents, segment);
            bodies.extend(self.read_packs(metas, segment, &selected));
        }
        let mut builder = PackBuilder::production();
        let slices: Vec<_> = (0..requests.len())
            .map(|index| builder.append(&bodies[&index]).unwrap())
            .collect();
        let built = builder.finish().unwrap();
        let placed = place_documents(merged.tables, &slices, built.blocks.clone());
        placed.validate().unwrap();
        let new_bases = build_block_bases(&placed).unwrap();
        let mut victims = Vec::new();
        for (meta, remap) in metas.iter().zip(merged.remaps) {
            let old_bases = build_block_bases(&self.tables[&meta.seg_id]).unwrap();
            let postings = self.blob(meta, "postings.bin").to_vec();
            let bytes = self.blob(meta, "terms.fst");
            let map = TermMap::open(bytes, Strategy::Trigram).unwrap();
            let terms = map.entries(bytes).unwrap();
            assert_eq!(map.len(bytes), Some(terms.len() as u64));
            victims.push(VictimTerms {
                terms: terms
                    .into_iter()
                    .map(|(gram, packed)| VictimTerm {
                        gram,
                        packed,
                        len: None,
                    })
                    .collect(),
                postings_len: postings.len() as u64,
                postings,
                id_space: *old_bases.last().unwrap(),
                remap,
                old_bases,
            });
        }
        let lists = merge_postings(Strategy::Trigram, &victims, &new_bases).unwrap();
        let bodies: Vec<Vec<u8>> = bodies.into_values().collect();
        let fresh = list_documents(&bodies, &new_bases);
        assert_eq!(listed(&lists), listed(&fresh), "merging keeps what is posted");
        self.put_segment(placed, built, &lists)
    }

    fn update(
        &mut self,
        listing: &[ListedObject],
        rebuild: bool,
        read: &mut dyn FnMut(&str) -> SourceBody,
    ) -> Result<UpdateReport, IndexError> {
        let root_missing = matches!(self.root, RootState::Absent);
        let adoption = adopt_root(&self.root, &test_source(), Strategy::Trigram, rebuild)?;
        let old = match std::mem::replace(&mut self.root, RootState::Absent) {
            RootState::Loaded(list) => list,
            _ => SegmentList {
                format: INDEX_FORMAT,
                source: test_source(),
                strategy: Strategy::Trigram,
                segments: Vec::new(),
            },
        };
        let mut run = UpdateRun::start(&old.segments);
        let (existing, dead) = if adoption.keep {
            (old.segments, std::mem::take(&mut self.dead))
        } else {
            (Vec::new(), Vec::new())
        };
        let doc_counts: Vec<u32> = existing.iter().map(|meta| meta.doc_count).collect();
        let tables: Vec<SegmentTables> = existing
            .iter()
            .map(|meta| self.tables.remove(&meta.seg_id).unwrap())
            .collect();
        let flags = UpdateFlags {
            purge_deleted: self.purge_deleted,
            forced: adoption.forced,
            root_missing,
        };
        let planned = plan_update(listing, &tables, &dead, &doc_counts, flags)?;
        for (meta, tables) in existing.iter().zip(tables) {
            self.tables.insert(meta.seg_id.clone(), tables);
        }
        let segments = existing.len();
        if planned.up_to_date {
            let report = update_report(&planned, flags, false, segments, planned.total_docs);
            assert!(report.up_to_date);
            self.dead = dead;
            self.root = RootState::Loaded(SegmentList {
                format: INDEX_FORMAT,
                source: test_source(),
                strategy: Strategy::Trigram,
                segments: existing,
            });
            return Ok(report);
        }
        for ((meta, dead), action) in existing
            .into_iter()
            .zip(&planned.dead)
            .zip(&planned.actions)
        {
            match action {
                SegmentAction::Drop => {}
                SegmentAction::Keep => run.keep(meta, dead.clone()),
                SegmentAction::Repack => {
                    let rewritten = self.merge(&[meta], &[dead.clone()]);
                    run.add(rewritten, true);
                }
                SegmentAction::Record => {
                    let bytes = format!("{dead:?}").into_bytes();
                    let hash = sha256_hex(&bytes);
                    self.blobs
                        .insert(segment_blob(&meta.seg_id, &dead_name(&hash)), bytes.clone());
                    run.record(meta, dead.clone(), hash, bytes.len() as u64);
                }
            }
        }
        if !planned.to_add.is_empty() {
            let mut splits = SegmentSplits::new(planned.to_add.len(), SEGMENT_DOC_CAP).unwrap();
            while let Some((start, end)) = splits.next() {
                let meta = self.build(&planned.to_add[start..end], read);
                run.add(meta, false);
                splits.built();
            }
        }
        if let Some(at) = run.victim() {
            let mut pair = run.metas.split_off(at);
            let rest = pair.split_off(2);
            let dead = run.dead[at..at + 2].to_vec();
            let merged = self.merge(&pair, &dead);
            run.metas.extend(pair);
            run.metas.extend(rest);
            run.merge(at, merged);
        }
        let total: usize = run
            .metas
            .iter()
            .zip(&run.dead)
            .map(|(meta, dead)| segment_doc_count(&self.tables[&meta.seg_id], dead))
            .sum();
        let report = update_report(&planned, flags, run.compacted, run.metas.len(), total);
        assert_eq!(
            report.up_to_date,
            root_unchanged(&planned, flags, run.compacted)
        );
        self.dead = run.dead.clone();
        let (list, deleted) = run.finish(test_source(), Strategy::Trigram);
        list.check().unwrap();
        if !report.up_to_date {
            self.root_version += 1;
            for blob in &deleted {
                assert!(self.blobs.remove(blob).is_some(), "{blob} is there");
            }
            self.check_blobs(&list);
            self.deleted = deleted;
        }
        self.root = RootState::Loaded(list);
        Ok(report)
    }

    /// The store holds what the root names, and nothing else.
    fn check_blobs(&self, list: &SegmentList) {
        let named: BTreeSet<String> = list.segments.iter().flat_map(meta_blobs).collect();
        let held: BTreeSet<String> = self.blobs.keys().cloned().collect();
        assert_eq!(named, held);
        assert!(garbage(&list.segments, &list.segments).is_empty());
    }

    fn candidates(&self, query: &Query, batch_size: usize) -> Vec<Vec<DocAddress>> {
        let mut batches = Vec::new();
        for (segment, (meta, dead)) in self.metas().iter().zip(&self.dead).enumerate() {
            let tables = &self.tables[&meta.seg_id];
            let bases = build_block_bases(tables).unwrap();
            let id_space = *bases.last().unwrap();
            let bytes = self.blob(meta, "terms.fst");
            let map = TermMap::open(bytes, Strategy::Trigram).unwrap();
            let mut grams = Vec::new();
            collect_grams(query, &mut grams);
            let found = grams
                .iter()
                .map(|gram| {
                    map.get(bytes, gram, 0)
                        .unwrap()
                        .map(|packed| TermValue { packed, len: None })
                })
                .collect();
            let terms = QueryTerms { grams, found };
            let plans = [CandidatePlan {
                query,
                extent: SearchExtent::Document,
            }];
            let bound = bind_queries(&plans, id_space, Strategy::Trigram, &terms).unwrap();
            let postings = self.blob(meta, "postings.bin");
            let blocks: BTreeMap<u64, Vec<u32>> = needed_blocks(&bound)
                .into_iter()
                .map(|(offset, (count, len))| {
                    assert_eq!(len, posting_block_len(count, id_space));
                    let bytes = &postings[offset as usize..][..len as usize];
                    (offset, decode_posting_block(bytes, count, id_space).unwrap())
                })
                .collect();
            let selections = visit_candidate_selections(
                &plans,
                &bound,
                Strategy::Trigram,
                &blocks,
                &bases,
                tables,
            )
            .unwrap();
            let mut ids: Vec<u32> = match &selections[0] {
                Selection::All => (0..meta.doc_count).collect(),
                Selection::Ids(ids) => ids
                    .iter()
                    .map(|id| get_block_document(*id, &bases) as u32)
                    .collect(),
            };
            ids.dedup();
            let live = live_ids(&ids, dead);
            let mut start = 0;
            while start < live.len() {
                let batch =
                    candidate_batch(segment as u32, tables, &live, start, batch_size).unwrap();
                start += batch.len();
                batches.push(batch);
            }
        }
        batches
    }

    /// Search with a sink that gets the keys of documents with a match.
    fn search(
        &mut self,
        pattern: &str,
        scope: &KeyScope<'_, fn(&str) -> bool>,
        keys_wanted: bool,
        sink: &mut dyn FnMut(&str, &[u8]) -> SinkFlow,
    ) -> SearchStats {
        let query = plan(pattern, &Trigrams).unwrap();
        let program = Program::compile(pattern).unwrap();
        let mut run = SearchRun::new();
        for batch in self.candidates(&query, 16_384) {
            let documents = run.take_candidates(scope, batch).unwrap();
            if documents.is_empty() {
                continue;
            }
            let mut log = BatchLog::new(documents.len());
            let mut stopped = false;
            for (segment, group) in group_addresses(&documents).unwrap() {
                let metas = match std::mem::replace(&mut self.root, RootState::Absent) {
                    RootState::Loaded(list) => list,
                    _ => unreachable!(),
                };
                let requests = {
                    let tables = &self.tables[&metas.segments[segment as usize].seg_id];
                    segment_requests(Some(tables), &documents, &group).unwrap()
                };
                let bodies = self.read_packs(&metas.segments, segment as usize, &requests);
                self.root = RootState::Loaded(metas);
                for (index, body) in bodies {
                    if stopped {
                        break;
                    }
                    log.record_fetch(index, true, body.len(), body.len());
                    if has_line_match(&program, &body) {
                        let key = &documents[index].display_key;
                        let noted = if keys_wanted { Some(key.clone()) } else { None };
                        stopped = log.record_hit(index, noted, 0, sink(key, &body));
                    }
                }
            }
            let end = if stopped {
                BatchEnd::Stopped
            } else {
                BatchEnd::Complete
            };
            assert!(log.close(end));
            if !run.take_batch(log).unwrap() {
                break;
            }
        }
        run.finish(
            total_docs(self.metas(), &self.dead),
            0,
            &[PatternKind::Fallback],
        )
    }

    fn hits(&mut self, pattern: &str) -> SearchStats {
        self.search(pattern, &everywhere(), true, &mut |_, _| SinkFlow::Continue)
    }
}

fn everywhere() -> KeyScope<'static, fn(&str) -> bool> {
    KeyScope {
        prefix: None,
        matches: None,
    }
}

fn assert_matches_oracle(bucket: &Bucket, index: &mut Index, patterns: &[&str], label: &str) {
    for pattern in patterns {
        let re = regex::bytes::Regex::new(pattern).unwrap();
        let oracle: Vec<String> = bucket
            .objects
            .iter()
            .filter(|(_, body)| {
                body.split_inclusive(|byte| *byte == b'\n')
                    .any(|line| re.is_match(line.strip_suffix(b"\n").unwrap_or(line)))
            })
            .map(|(key, _)| key.clone())
            .collect();
        assert_eq!(index.hits(pattern).hits, oracle, "{label}: pattern `{pattern}`");
    }
}

fn indexed(objects: &[(&str, &[u8])]) -> (Bucket, Index) {
    let mut bucket = Bucket::default();
    for (key, body) in objects {
        bucket.put(key, body);
    }
    let mut index = Index::new();
    bucket.reindex(&mut index);
    (bucket, index)
}

const PATTERNS: &[&str] = &["needle", "shared", "zzznope", ".*", "v[12]-only"];

#[test]
fn lifecycle_add_modify_delete_readd() {
    let mut bucket = Bucket::default();
    let mut index = Index::new();

    // Run 1: initial corpus.
    bucket.put("logs/a", b"needle shared alpha");
    bucket.put("logs/b", b"shared beta v1-only");
    bucket.put("other/c", b"gamma");
    bucket.reindex(&mut index);
    assert_matches_oracle(&bucket, &mut index, PATTERNS, "run1");

    // Run 2: append only.
    bucket.put("logs/d", b"needle delta");
    bucket.reindex(&mut index);
    assert_matches_oracle(&bucket, &mut index, PATTERNS, "run2-append");

    // Run 3: modify an existing key (the old segment entry must go dead).
    bucket.put("logs/b", b"shared beta v2-only");
    bucket.reindex(&mut index);
    assert_matches_oracle(&bucket, &mut index, PATTERNS, "run3-modify");

    // Run 4: delete a key.
    bucket.delete("logs/a");
    bucket.reindex(&mut index);
    assert_matches_oracle(&bucket, &mut index, PATTERNS, "run4-delete");

    // Run 5: re-add the deleted key with its first content (same etag as
    // the dead entry - must still come back alive).
    bucket.put("logs/a", b"needle shared alpha");
    bucket.reindex(&mut index);
    assert_matches_oracle(&bucket, &mut index, PATTERNS, "run5-readd");

    // Run 6: no-op run must change nothing and still search correctly.
    let report = bucket.reindex(&mut index);
    assert!(report.up_to_date, "run6 should be a no-op");
    assert_matches_oracle(&bucket, &mut index, PATTERNS, "run6-noop");
}

#[test]
fn compaction_bounds_segment_count_and_preserves_results() {
    let mut bucket = Bucket::default();
    let mut index = Index::new();

    // 20 index runs, one new doc each: forces repeated merges.
    for i in 0..20 {
        bucket.put(
            &format!("logs/doc{i:02}"),
            format!("needle number {i} shared").as_bytes(),
        );
        bucket.reindex(&mut index);
    }
    let live = total_docs(index.metas(), &index.dead);
    assert!(live == 20, "expected 20 live docs, got {live}");
    assert_matches_oracle(
        &bucket,
        &mut index,
        &["needle", "number 1", "shared", ".*"],
        "after-compactions",
    );
    assert_eq!(index.metas().len(), SEGMENT_COUNT_TARGET);
    assert_eq!(index.hits("needle").hits.len(), 20);
}

#[test]
fn same_run_compacted_newborns_are_garbage_collected() {
    // SEGMENT_COUNT_TARGET is 8: build 9 segments across runs, then one run
    // that adds a 10th AND compacts - the newborn that merges away in its
    // own birth run must not leak blobs.
    let mut bucket = Bucket::default();
    let mut index = Index::new();
    for i in 0..10 {
        bucket.put(&format!("doc{i:02}"), format!("needle {i}").as_bytes());
        bucket.reindex(&mut index);
    }
    let report = bucket.reindex(&mut index);
    let held: BTreeSet<&str> = index
        .blobs
        .keys()
        .filter_map(|blob| blob.strip_prefix("segments/"))
        .filter_map(|blob| blob.split('/').next())
        .collect();
    assert_eq!(
        held.len(),
        report.segments,
        "segments with blobs must equal live segments (no leaks)"
    );
    assert_matches_oracle(&bucket, &mut index, &["needle"], "post-churn");
}

#[test]
fn unreferenced_segment_blobs_are_garbage_collected() {
    let blob_files = |index: &Index| {
        index
            .blobs
            .keys()
            .filter(|blob| blob.starts_with("segments/"))
            .count()
    };
    let (mut bucket, mut index) = indexed(&[("a", b"needle one"), ("b", b"needle two")]);
    assert_eq!(index.metas().len(), 1);

    // a rebuild must REPLACE the old segment's blobs, not orphan them
    index
        .update(&bucket.listing(), true, &mut |key| bucket.read(key))
        .unwrap();
    assert_eq!(
        blob_files(&index),
        3,
        "rebuild must not leak old segment blobs"
    );

    bucket.delete("a");
    bucket.reindex(&mut index);
    assert_eq!(blob_files(&index), 3, "deleted segment was repacked");
    bucket.put("c", b"needle three");
    bucket.delete("b");
    bucket.reindex(&mut index);
    // first segment fully dead -> dropped + GC'd; only the c-segment remains
    assert_eq!(
        blob_files(&index),
        3,
        "fully-dead segment blobs must be GC'd"
    );
    assert_matches_oracle(&bucket, &mut index, &["needle", "three"], "post-gc");
}

#[test]
fn rebuild_flag_reingests_from_scratch() {
    let (bucket, mut index) = indexed(&[("a", b"needle one"), ("b", b"needle two")]);
    let report = index
        .update(&bucket.listing(), true, &mut |key| bucket.read(key))
        .unwrap();
    assert!(!report.up_to_date);
    assert_eq!(report.added, 2, "rebuild re-ingests everything");
    assert_matches_oracle(&bucket, &mut index, &["needle"], "post-rebuild");
}

#[test]
fn undecodable_objects_marked_failed_and_converge() {
    // A truncated gzip header: detected as gzip, fails to decode.
    let (mut bucket, mut index) = indexed(&[
        ("bad.gz", &[0x1f, 0x8b, 0x08, 0x00]),
        ("good", b"needle fine"),
    ]);

    // The undecodable object must NOT force a refetch every run: the next
    // run over an unchanged bucket is a no-op.
    let report = bucket.reindex(&mut index);
    assert!(report.up_to_date, "failed-marked object must not loop");

    // Replacing the bad object with decodable content picks it up.
    bucket.put("bad.gz", b"needle recovered");
    bucket.reindex(&mut index);
    assert_matches_oracle(
        &bucket,
        &mut index,
        &["needle", "recovered"],
        "failed-doc-recovery",
    );
}

#[test]
fn object_missing_during_fetch_retries_with_same_etag() {
    let listing = vec![("a".to_owned(), "same-etag".to_owned(), 6)];
    let mut missing = true;
    let mut read = |_: &str| {
        if std::mem::replace(&mut missing, false) {
            SourceBody::Missing
        } else {
            SourceBody::Text(b"needle".to_vec())
        }
    };
    let mut index = Index::new();
    let first = index.update(&listing, false, &mut read).unwrap();
    assert_eq!(first.total_docs, 0);
    let second = index.update(&listing, false, &mut read).unwrap();
    assert_eq!(second.added, 1);
    assert_eq!(second.total_docs, 1);
}

#[test]
fn tombstone_thresholds_repack_by_documents_and_bytes() {
    for large in [false, true] {
        let mut bucket = Bucket::default();
        for i in 0..8u8 {
            let size = if large && i == 0 { 128 * 1024 } else { 1024 };
            bucket.put(&format!("doc{i:02}"), &vec![b'a' + i; size]);
        }
        let mut index = Index::new();
        bucket.reindex(&mut index);
        bucket.delete("doc00");
        if !large {
            bucket.delete("doc01");
        }
        index.pack_reads = 0;
        let report = bucket.reindex(&mut index);
        assert_eq!(index.pack_reads, 1);
        assert!(report.compacted);
    }
}

fn names_under(index: &Index, prefix: &str) -> Vec<String> {
    index
        .blobs
        .keys()
        .filter(|blob| blob.starts_with(prefix))
        .cloned()
        .collect()
}

fn dead_files(index: &Index) -> Vec<String> {
    index
        .blobs
        .keys()
        .filter(|blob| blob.contains("/dead-"))
        .cloned()
        .collect()
}

#[test]
fn indexed_snapshot_searches_after_source_removal() {
    let (mut bucket, mut index) = indexed(&[("logs/a.log", b"before needle after")]);
    bucket.delete("logs/a.log");
    assert_eq!(index.hits("needle").hits, ["logs/a.log"]);
}

#[test]
fn deleting_one_source_rewrites_and_removes_its_old_pack() {
    let (mut bucket, mut index) = indexed(&[
        ("a.log", b"deleted secret needle"),
        ("b.log", b"retained public needle"),
    ]);
    let before = names_under(&index, "packs/");
    assert_eq!(before.len(), 1);

    bucket.delete("a.log");
    bucket.reindex(&mut index);
    let after = names_under(&index, "packs/");
    assert_eq!(after.len(), 1);
    assert_ne!(before, after);
    assert_eq!(index.hits("needle").hits, ["b.log"]);
}

#[test]
fn archive_members_follow_source_lifecycle() {
    let mut bucket = Bucket::default();
    bucket.put_archive(
        "logs/bundle.zip",
        &[
            ("app.log", b"needle alpha"),
            ("nested/worker.log", b"needle beta"),
            ("quiet.log", b"haystack"),
        ],
    );
    let mut index = Index::new();
    bucket.reindex(&mut index);

    let query = plan("needle", &Trigrams).unwrap();
    let found: Vec<DocAddress> = index
        .candidates(&query, 16_384)
        .into_iter()
        .flatten()
        .filter(|document| document.display_key.starts_with("logs/bundle.zip!/"))
        .collect();
    assert_eq!(
        found
            .iter()
            .map(|document| document.display_key.as_str())
            .collect::<Vec<_>>(),
        [
            "logs/bundle.zip!/app.log",
            "logs/bundle.zip!/nested/worker.log"
        ]
    );
    assert!(found.iter().all(|document| {
        document.source_key == "logs/bundle.zip"
            && document.encoding == SourceEncoding::Zip
            && document.member_path.is_some()
    }));
    assert_eq!(
        index.hits("needle").hits,
        [
            "logs/bundle.zip!/app.log".to_owned(),
            "logs/bundle.zip!/nested/worker.log".to_owned()
        ]
    );
    let nested: KeyScope<'_, fn(&str) -> bool> = KeyScope {
        prefix: Some("logs/bundle.zip!/nested/"),
        matches: None,
    };
    assert_eq!(
        index
            .search("needle", &nested, true, &mut |_, _| SinkFlow::Continue)
            .hits,
        ["logs/bundle.zip!/nested/worker.log".to_owned()]
    );

    bucket.put_archive(
        "logs/bundle.zip",
        &[("renamed.log", b"needle gamma"), ("quiet.log", b"haystack")],
    );
    bucket.reindex(&mut index);
    assert_eq!(
        index.hits("needle").hits,
        ["logs/bundle.zip!/renamed.log".to_owned()]
    );

    bucket.delete("logs/bundle.zip");
    bucket.reindex(&mut index);
    assert_eq!(total_docs(index.metas(), &index.dead), 0);
}

#[test]
fn same_run_compacted_tombstones_are_garbage_collected_once() {
    let mut bucket = Bucket::default();
    let mut index = Index::new();
    for batch in 0..8 {
        for offset in 0..8 {
            let document = batch * 8 + offset;
            bucket.put(
                &format!("doc{document:02}"),
                format!("needle {document}").as_bytes(),
            );
        }
        bucket.reindex(&mut index);
    }

    bucket.delete("doc00");
    for document in 64..72 {
        bucket.put(
            &format!("doc{document:02}"),
            format!("needle {document}").as_bytes(),
        );
    }
    let report = bucket.reindex(&mut index);
    assert!(report.compacted);
    let unique: BTreeSet<&str> = index.deleted.iter().map(String::as_str).collect();
    assert_eq!(index.deleted.len(), unique.len());

    let segments: BTreeSet<&str> = index
        .blobs
        .keys()
        .filter_map(|blob| blob.strip_prefix("segments/"))
        .filter_map(|blob| blob.split('/').next())
        .collect();
    assert_eq!(segments.len(), report.segments);
    assert_eq!(names_under(&index, "packs/").len(), report.segments);
    assert_matches_oracle(
        &bucket,
        &mut index,
        &["needle"],
        "post-tombstone-compaction",
    );
}

#[test]
fn tombstones_bound_update_work_and_purge_physically() {
    let mut bucket = Bucket::default();
    for i in 0..64 {
        bucket.put(&format!("doc{i:02}"), format!("needle {i:02}").as_bytes());
    }
    let mut index = Index::new();
    bucket.reindex(&mut index);
    let original_packs = names_under(&index, "packs/");

    bucket.delete("doc00");
    index.pack_reads = 0;
    let report = bucket.reindex(&mut index);
    assert_eq!(index.pack_reads, 0);
    assert!(!report.compacted);
    assert_eq!(names_under(&index, "packs/"), original_packs);
    let first_dead = dead_files(&index);
    assert_eq!(first_dead.len(), 1);

    bucket.delete("doc01");
    bucket.reindex(&mut index);
    let second_dead = dead_files(&index);
    assert_eq!(second_dead.len(), 1);
    assert_ne!(second_dead, first_dead);

    index.pack_reads = 0;
    index.purge_deleted = true;
    let report = bucket.reindex(&mut index);
    assert_eq!(index.pack_reads, 1);
    assert!(report.compacted);
    let unique: BTreeSet<&str> = index.deleted.iter().map(String::as_str).collect();
    assert_eq!(index.deleted.len(), unique.len());
    assert!(dead_files(&index).is_empty());
    assert_ne!(names_under(&index, "packs/"), original_packs);
    assert_matches_oracle(&bucket, &mut index, &["needle"], "purged tombstones");
}

#[test]
fn repack_coalesces_pack_reads_across_sources() {
    let mut bucket = Bucket::default();
    for i in 0..64 {
        let body = format!("needle {i:02} {}\n", "x".repeat(4 * 1024));
        bucket.put(&format!("doc{i:02}"), body.as_bytes());
    }
    let mut index = Index::new();
    bucket.reindex(&mut index);

    bucket.delete("doc00");
    index.pack_reads = 0;
    index.purge_deleted = true;
    bucket.reindex(&mut index);
    assert_eq!(index.pack_reads, 1);
}

#[test]
fn repack_fetches_all_window_ranges_in_one_call() {
    let mut bucket = Bucket::default();
    for i in 0..20u8 {
        bucket.put(&format!("doc{i:02}"), &vec![b'a' + i; 128 * 1024]);
    }
    let mut index = Index::new();
    bucket.reindex(&mut index);

    for i in (0..20).step_by(2) {
        bucket.delete(&format!("doc{i:02}"));
    }
    index.pack_reads = 0;
    bucket.reindex(&mut index);
    assert_eq!(index.pack_reads, 1);
}

#[test]
fn files_only_streaming_matches_full_search() {
    let (_, mut index) = indexed(&[
        ("x", b"abc world"),
        ("y", b"nomatch"),
        ("z", b"world world"),
    ]);
    let sink = NullSink;
    let stats = index.search("world", &everywhere(), true, &mut |_, _| sink.on_doc());
    let mut collected = Vec::new();
    let full_stats = index.search("world", &everywhere(), true, &mut |key, body| {
        collected.push((key.to_owned(), body.to_vec()));
        SinkFlow::Continue
    });
    assert_eq!(collected.len(), 2);
    assert_eq!(stats.hits, full_stats.hits);
    assert_eq!(stats.hits, vec!["x", "z"]);
}

#[test]
fn indexed_searches_equal_scans() {
    let bodies: [&[u8]; 7] = [
        b"fn handleClick() { return 42; }",
        b"the quick brown fox",
        b"hello world\nsecond line with world",
        b"nothing interesting",
        b"EMAIL: a@b.com and c@d.org",
        b"",
        b"\xff\xfe binary-ish \x00 bytes world",
    ];
    let mut bucket = Bucket::default();
    for (i, body) in bodies.iter().enumerate() {
        bucket.put(&format!("doc{i}"), body);
    }
    let mut index = Index::new();
    bucket.reindex(&mut index);
    let patterns = [
        "world",
        "handleClick",
        "quick.*fox",
        "EMAIL",
        r"\w+@\w+",
        ".*",
        "zzzznotpresent",
        "ab",
        "second line",
        ".*quick.*",
        ".*(quick|world).*",
        ".*(quick)+.*",
        ".*(zzzznotpresent)?.*",
        "arrow",
        "archive",
    ];
    assert_matches_oracle(&bucket, &mut index, &patterns, "plain");
}

#[test]
fn repeated_updates_change_nothing() {
    let mut bucket = Bucket::default();
    let mut index = Index::new();
    for round in 0..12u8 {
        bucket.put(&format!("doc{round:02}"), &[b'a' + round; 64]);
        bucket.put("changing", &[b'A' + round; 64]);
        if round > 3 {
            bucket.delete(&format!("doc{:02}", round - 4));
        }
        let first = bucket.reindex(&mut index);
        assert!(!first.up_to_date);
        let version = index.root_version;
        let again = bucket.reindex(&mut index);
        assert_eq!(again.total_docs, first.total_docs);
        assert!(again.up_to_date, "round {round}");
        assert_eq!((again.added, again.removed), (0, 0));
        assert_eq!(index.root_version, version);
    }
}

#[test]
fn few_tombstones_are_recorded() {
    let mut bucket = Bucket::default();
    for i in 0..8u8 {
        bucket.put(&format!("doc{i:02}"), &[b'a' + i; 1024]);
    }
    let mut index = Index::new();
    bucket.reindex(&mut index);
    bucket.delete("doc03");
    index.pack_reads = 0;
    let report = bucket.reindex(&mut index);
    assert_eq!(index.pack_reads, 0);
    assert!(!report.compacted);
    assert_eq!((report.removed, report.total_docs), (1, 7));
    assert_eq!(index.metas()[0].doc_count, 8);
    assert_ne!(index.metas()[0].dead_hash, "");
    assert_matches_oracle(&bucket, &mut index, &["ddd", "eee", ".*"], "recorded");
}

#[test]
fn unmergeable_segment_set_converges_without_root_rewrite() {
    let mut bucket = Bucket::default();
    let mut index = Index::new();
    for i in 0..=SEGMENT_COUNT_TARGET {
        bucket.put(&format!("doc-{i}"), &[0]);
        bucket.reindex(&mut index);
        if let RootState::Loaded(list) = &mut index.root {
            for meta in &mut list.segments {
                meta.postings_len = MERGE_POSTINGS_CAP + 1;
            }
        }
    }
    assert_eq!(index.metas().len(), SEGMENT_COUNT_TARGET + 1);
    let before = index.root_version;
    let report = index
        .update(&bucket.listing(), false, &mut |_| {
            panic!("unchanged index should not fetch")
        })
        .unwrap();
    assert!(report.up_to_date);
    assert_eq!(before, index.root_version);
}

#[test]
fn index_source_binding_allows_only_same_backend_subtrees() {
    let s3 = |endpoint: &str, bucket: &str, prefix: &str| SourceIdentity::S3 {
        endpoint: endpoint.into(),
        bucket: bucket.into(),
        prefix: prefix.into(),
    };
    let indexed = s3("https://s3.us-east-1.amazonaws.com", "source", "logs/");
    let narrower = s3("https://s3.us-east-1.amazonaws.com", "source", "logs/app/");
    assert!(indexed.can_search(&narrower));
    for rejected in [
        s3("https://s3.us-east-1.amazonaws.com", "source", ""),
        s3("http://127.0.0.1:9000", "source", "logs/"),
        s3("https://s3.us-east-1.amazonaws.com", "other", "logs/"),
    ] {
        assert!(!indexed.can_search(&rejected));
    }
}

#[test]
fn candidates_are_a_superset_of_the_matches() {
    let (_, index) = indexed(&[("x", b"world"), ("y", b"word")]);
    let query = plan("world", &Trigrams).unwrap();
    let found: Vec<String> = index
        .candidates(&query, 16_384)
        .into_iter()
        .flatten()
        .map(|document| document.display_key)
        .collect();
    assert!(found.contains(&"x".to_owned()));
    assert!(found.iter().all(|key| key == "x" || key == "y"));
    let all: Vec<String> = index
        .candidates(&Query::All, 16_384)
        .into_iter()
        .flatten()
        .map(|document| document.display_key)
        .collect();
    assert_eq!(all, ["x", "y"]);
}

#[test]
fn key_filter_prunes_before_fetch() {
    let (_, mut index) = indexed(&[("logs/a", b"abc world"), ("other/b", b"abc world")]);
    let scope: KeyScope<'_, fn(&str) -> bool> = KeyScope {
        prefix: Some("logs/"),
        matches: None,
    };
    let stats = index.search("world", &scope, true, &mut |_, _| SinkFlow::Continue);
    assert_eq!(stats.hits, vec!["logs/a"]);
    assert_eq!(stats.candidates, 1);
    assert_eq!(stats.bytes_fetched, b"abc world".len());
}

#[test]
fn search_collect_returns_verified_matches_and_stats() {
    let (_, mut index) = indexed(&[("x", b"abc world"), ("y", b"nomatch")]);
    let re = regex::bytes::Regex::new("world").unwrap();
    let mut collected = Vec::new();
    let stats = index.search("world", &everywhere(), true, &mut |key, body| {
        let matched = re.find(body).unwrap();
        let mut lines = LineCollector::new(None);
        lines.take_region(
            vec![LineEvent {
                line: 1,
                kind: LineKind::Match,
                offset: 0,
                text: body.to_vec(),
                submatches: vec![SubMatch {
                    start: matched.start(),
                    end: matched.end(),
                }],
            }],
            1,
            0,
        );
        collected.extend(lines.finish().into_iter().map(|event| Collected {
            key: key.to_owned(),
            event,
        }));
        SinkFlow::Continue
    });
    let matches: Vec<(String, LineEvent)> = sort_collected(collected)
        .into_iter()
        .map(|line| (line.key, line.event))
        .collect();
    assert_eq!(
        matches,
        vec![(
            "x".to_owned(),
            LineEvent {
                line: 1,
                kind: LineKind::Match,
                offset: 0,
                text: b"abc world".to_vec(),
                submatches: vec![SubMatch { start: 4, end: 9 }],
            }
        )]
    );
    assert_eq!(stats.hits, vec!["x"]);
    assert_eq!(stats.candidates, 1);
    assert_eq!(stats.total_docs, 2);
    assert_eq!(stats.bytes_fetched, b"abc world".len());
}

#[test]
fn count_only_sink_agrees_with_collected_hits() {
    let (_, mut index) = indexed(&[
        ("x", b"abc world"),
        ("y", b"nomatch"),
        ("z", b"world world"),
    ]);
    let stats = index.search("world", &everywhere(), false, &mut |_, _| {
        SinkFlow::Continue
    });
    let full_stats = index.hits("world");
    assert!(stats.hits.is_empty(), "count-only mode must not collect");
    assert_eq!(stats.hit_count, full_stats.hits.len());
    assert_eq!(full_stats.hit_count, full_stats.hits.len());
    assert_eq!(stats.hit_count, 2);
}

#[test]
fn sink_stop_ends_search_early_without_error() {
    let mut bucket = Bucket::default();
    for i in 0..100u32 {
        bucket.put(&format!("doc{i}"), format!("needle {i}").as_bytes());
    }
    let mut index = Index::new();
    bucket.reindex(&mut index);
    let stats = index.search("needle", &everywhere(), true, &mut |_, _| SinkFlow::Stop);
    // Stop is cooperative: at least one hit was reported, the search
    // ended Ok, and whatever was skipped is simply absent from hits.
    assert!(!stats.hits.is_empty());
    assert_eq!(stats.candidates, 100);
}

fn plain_documents(count: usize) -> Vec<DocAddress> {
    (0..count)
        .map(|index| DocAddress {
            display_key: format!("doc-{index}"),
            source_key: format!("doc-{index}"),
            source_version: "v1".into(),
            encoded_size: 7,
            encoding: SourceEncoding::Raw,
            member_path: None,
            index: None,
        })
        .collect()
}

fn consume_batches() {
    let program = Program::compile("needle").unwrap();
    let mut run = SearchRun::new();
    let mut largest = 0;
    let mut documents = plain_documents(5);
    while !documents.is_empty() {
        let rest = documents.split_off(documents.len().min(2));
        let batch = run.take_candidates(&everywhere(), documents).unwrap();
        largest = largest.max(batch.len());
        let mut log = BatchLog::new(batch.len());
        for (index, document) in batch.iter().enumerate() {
            log.record_fetch(index, true, 7, 7);
            if has_line_match(&program, b"needle\n") {
                let key = Some(document.display_key.clone());
                assert!(!log.record_hit(index, key, 0, SinkFlow::Continue));
            }
        }
        assert!(run.take_batch(log).unwrap());
        documents = rest;
    }
    let stats = run.finish(5, 0, &[PatternKind::Exact]);
    assert_eq!(stats.hits.len(), 5);
    assert_eq!(largest, 2);
    assert_eq!((stats.candidates, stats.bytes_fetched), (5, 35));
    assert_eq!((stats.patterns, stats.exact_patterns), (1, 1));
}

#[test]
fn search_search_consumes_candidate_batches() {
    consume_batches();
}

#[test]
fn mod_search_consumes_candidate_batches() {
    consume_batches();
}

fn change_after_a_batch() {
    let mut run = SearchRun::new();
    assert_eq!(run.failure(true), None);
    run.take_candidates(&everywhere(), plain_documents(1))
        .unwrap();
    let error = run
        .failure(true)
        .expect("late index change should fail the partial search");
    assert_ne!(error.message(), IndexChanged.message());
    assert!(error.message().contains("candidate batches began"));
    assert_eq!(run.failure(false), None);
}

#[test]
fn search_index_change_after_a_batch_is_not_retryable() {
    change_after_a_batch();
}

#[test]
fn mod_index_change_after_a_batch_is_not_retryable() {
    change_after_a_batch();
}

#[test]
fn batches_are_gone_through_as_asked() {
    assert_eq!(batch_mode(1, 8, None, true), BatchMode::InTurn);
    assert_eq!(batch_mode(5, 8, None, true), BatchMode::Queue { len: 10 });
    assert_eq!(batch_mode(50, 8, None, true), BatchMode::Queue { len: 16 });
    assert_eq!(batch_mode(50, 8, Some(1), true), BatchMode::EachDocument);
    assert_eq!(batch_mode(50, 8, Some(1), false), BatchMode::UntilMatch);
    assert_eq!(batch_mode(1, 8, Some(1), true), BatchMode::UntilMatch);
    assert_eq!(batch_mode(0, 8, Some(2), true), BatchMode::InTurn);
    assert!(wants_matches(None) && wants_matches(Some(1)) && !wants_matches(Some(0)));
}

#[test]
fn documents_count_once_though_fetched_in_steps() {
    let mut log = BatchLog::new(2);
    log.record_fetch(1, false, 10, 100);
    log.record_fetch(1, true, 90, 100);
    log.record_fetch(0, true, 5, 5);
    let result = log.result;
    assert_eq!(result.candidate_bytes, 105);
    assert_eq!(result.decoded_bytes, 105);
    assert_eq!((result.regional_docs, result.whole_docs), (1, 1));
    assert!(log.record_hit(1, None, 3, SinkFlow::Stop));
    assert_eq!(log.result.candidate_bytes, 108);
    assert_eq!(log.result.hit_count, 1);
    assert!(log.hits.is_empty());
}

#[test]
fn statistics_are_sums_over_segments() {
    let (mut bucket, mut index) = indexed(&[("a", b"needle one"), ("b", b"needle two")]);
    bucket.put("c", b"needle three");
    bucket.reindex(&mut index);
    let stats = index_stats(index.metas(), &[10, 20]);
    let bytes = |name: &str| -> u64 {
        index
            .metas()
            .iter()
            .map(|meta| index.blob(meta, name).len() as u64)
            .sum()
    };
    assert_eq!(stats.distinct_grams, 30);
    assert_eq!(stats.terms_fst_bytes, bytes("terms.fst"));
    assert_eq!(stats.postings_bytes, bytes("postings.bin"));
}

#[test]
fn collectors_stop_at_the_limit() {
    let found = |kinds: &[LineKind]| -> Vec<LineEvent> {
        kinds
            .iter()
            .enumerate()
            .map(|(line, kind)| LineEvent {
                line: line as u64 + 1,
                kind: *kind,
                offset: line as u64 * 5,
                text: b"text".to_vec(),
                submatches: Vec::new(),
            })
            .collect()
    };
    let mut lines = LineCollector::new(Some(3));
    assert_eq!(lines.budget(), Some(Some(3)));
    lines.take_region(found(&[LineKind::Match, LineKind::Context]), 10, 100);
    assert_eq!(lines.budget(), Some(Some(2)));
    lines.take_region(found(&[LineKind::Match, LineKind::Match]), 11, 105);
    assert_eq!(lines.budget(), None);
    assert_eq!(LineCollector::new(None).budget(), Some(None));
    let events = lines.finish();
    let places: Vec<(u64, u64, LineKind)> = events
        .iter()
        .map(|event| (event.line, event.offset, event.kind))
        .collect();
    // the context line of the first region is a match of the second
    assert_eq!(
        places,
        [
            (10, 100, LineKind::Match),
            (11, 105, LineKind::Match),
            (12, 110, LineKind::Match)
        ]
    );
}

#[test]
fn collected_lines_are_sorted_by_key_line_and_match() {
    let line = |key: &str, line: u64, start: Option<usize>| Collected {
        key: key.into(),
        event: LineEvent {
            line,
            kind: LineKind::Match,
            offset: 0,
            text: Vec::new(),
            submatches: start
                .map(|start| SubMatch {
                    start,
                    end: start + 1,
                })
                .into_iter()
                .collect(),
        },
    };
    let sorted = sort_collected(vec![
        line("b", 1, Some(0)),
        line("a", 2, Some(3)),
        line("a", 2, Some(1)),
        line("a", 10, None),
        line("a", 2, None),
    ]);
    let order: Vec<(String, u64, Option<usize>)> = sorted
        .into_iter()
        .map(|line| {
            (
                line.key,
                line.event.line,
                line.event.submatches.first().map(|found| found.start),
            )
        })
        .collect();
    assert_eq!(
        order,
        [
            ("a".to_owned(), 2, None),
            ("a".to_owned(), 2, Some(1)),
            ("a".to_owned(), 2, Some(3)),
            ("a".to_owned(), 10, None),
            ("b".to_owned(), 1, Some(0)),
        ]
    );
}

#[test]
fn posting_lists_are_written_behind_each_other() {
    let list = |gram: &[u8], ids: &[u32]| GramList {
        gram: gram.to_vec(),
        ids: ids.to_vec(),
    };
    let lists = [
        list(b"abc", &[1, 2, 3]),
        list(b"abd", &[7]),
        list(b"abe", &[0, 9]),
    ];
    let (values, blocks) = write_postings(&lists, 10).unwrap();
    let unpacked: Vec<(u64, u32)> = values.into_iter().map(unpack_posting).collect();
    // three ids of four bits fill two bytes; one id is held by its value
    assert_eq!(unpacked, [(0, 3), (7, 1), (2, 2)]);
    assert_eq!(blocks.len(), 3);
    assert_eq!(decode_posting_block(&blocks[..2], 3, 10), Ok(vec![1, 2, 3]));
    assert_eq!(decode_posting_block(&blocks[2..], 2, 10), Ok(vec![0, 9]));
}

#[test]
fn trigrams_that_cross_blocks_count_for_the_first() {
    let mut body = vec![b'x'; 128 * 1024 + 5];
    body[128 * 1024 - 1..128 * 1024 + 2].copy_from_slice(b"abc");
    assert!(block_trigrams(&body, 0).contains(&b"abc".to_vec()));
    assert!(!block_trigrams(&body, 1).contains(&b"abc".to_vec()));
    assert_eq!(block_trigrams(b"abcd", 0).len(), 2);
    assert!(block_trigrams(b"ab", 0).is_empty());

    let (bucket, mut index) = indexed(&[("a", &body), ("b", b"nothing here")]);
    assert_matches_oracle(&bucket, &mut index, &["abc", "xabcx", "here", "cba"], "long");
}

#[test]
fn batches_are_closed_as_they_ended() {
    for (end, counts, stopped) in [
        (BatchEnd::Complete, true, false),
        (BatchEnd::Stopped, true, true),
        (BatchEnd::FeedFailed, false, false),
        (BatchEnd::VerifyFailed, false, false),
    ] {
        let mut run = SearchRun::new();
        let batch = run
            .take_candidates(&everywhere(), plain_documents(1))
            .unwrap();
        let mut log = BatchLog::new(batch.len());
        log.record_fetch(0, true, 7, 7);
        assert_eq!(log.close(end), counts);
        assert_eq!(log.result.stopped, stopped);
        assert_eq!(log.result.candidate_bytes, 7);
        if counts {
            assert_eq!(run.take_batch(log).unwrap(), !stopped);
        }
    }
}

#[test]
fn batches_note_the_keys_of_their_matches() {
    let program = Program::compile("^needle").unwrap();
    let bodies: Vec<Vec<u8>> = ["a needle", "needle", "x\nneedles", "", "\nneedle\n"]
        .iter()
        .map(|body| body.as_bytes().to_vec())
        .collect();
    let documents = plain_documents(5);
    let expected: Vec<String> = [1, 2, 4]
        .iter()
        .map(|at: &usize| documents[*at].display_key.clone())
        .collect();
    // at once, batch by batch, and with the candidates only
    for batches in [
        vec![vec![0, 1, 2, 3, 4]],
        vec![vec![0, 1], vec![2], vec![], vec![3, 4]],
        vec![vec![1, 2, 3], vec![4]],
        vec![vec![1, 2, 4]],
    ] {
        let mut run = SearchRun::new();
        let mut bytes = 0;
        let mut searched = 0;
        for batch in batches {
            let taken: Vec<DocAddress> = plain_documents(5)
                .into_iter()
                .enumerate()
                .filter(|(at, _)| batch.contains(at))
                .map(|(_, document)| document)
                .collect();
            let texts: Vec<Vec<u8>> = batch.iter().map(|at| bodies[*at].clone()).collect();
            bytes += texts.iter().map(Vec::len).sum::<usize>();
            searched += texts.len();
            let admitted = run.take_candidates(&everywhere(), taken).unwrap();
            run.search_batch(&program, &admitted, &texts).unwrap();
        }
        let stats = run.finish(5, 0, &[PatternKind::Fallback]);
        assert_eq!(stats.hits, expected);
        assert_eq!((stats.hit_count, stats.candidates), (3, searched));
        assert_eq!((stats.whole_docs, stats.regional_docs), (searched, 0));
        assert_eq!((stats.bytes_fetched, stats.decoded_bytes), (bytes, bytes));
    }
    let mut full = SearchRun::new();
    full.totals.bytes_fetched = usize::MAX;
    let admitted = full
        .take_candidates(&everywhere(), plain_documents(1))
        .unwrap();
    assert_eq!(
        full.search_batch(&program, &admitted, &[b"needle".to_vec()]),
        Err(IndexError::FetchedTotal)
    );
    assert!(full.hits.is_empty());
}
