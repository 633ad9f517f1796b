//! A search from its first batch of candidates to its statistics.

use crate::addresses::DocAddress;
use crate::error::IndexError;
use crate::format::DeadSet;
use crate::program::{has_line_match, Program};
use crate::ranking::rank_sorted;
use crate::search::{
    count_pattern_kind, BatchEnd, BatchResult, KeyScope, PatternKind, SearchTotals, SinkFlow,
};
use crate::segment::SegmentMeta;
use vstd::prelude::*;

verus! {

/// What an index holds.
#[derive(Debug, Clone, Copy, PartialEq, Eq, Structural)]
pub struct IndexStats {
    pub distinct_grams: u64,
    pub terms_fst_bytes: u64,
    pub postings_bytes: u64,
}

/// The sum of the first `n` numbers.
pub open spec fn sum_of(numbers: Seq<u64>, n: int) -> nat
    decreases n,
{
    if n <= 0 {
        0
    } else {
        sum_of(numbers, n - 1) + numbers[n - 1] as nat
    }
}

proof fn lemma_sum_grows(numbers: Seq<u64>, m: int, n: int)
    requires
        0 <= m <= n <= numbers.len(),
    ensures
        sum_of(numbers, m) <= sum_of(numbers, n),
    decreases n - m,
{
    if m < n {
        lemma_sum_grows(numbers, m, n - 1);
    }
}

pub open spec fn terms_lens(metas: Seq<SegmentMeta>) -> Seq<u64> {
    metas.map_values(|meta: SegmentMeta| meta.terms_fst_len)
}

pub open spec fn postings_lens(metas: Seq<SegmentMeta>) -> Seq<u64> {
    metas.map_values(|meta: SegmentMeta| meta.postings_len)
}

/// The sums over an index's segments; `grams` says how many grams each has.
pub fn index_stats(metas: &[SegmentMeta], grams: &[u64]) -> (stats: IndexStats)
    requires
        grams@.len() == metas@.len(),
        sum_of(grams@, grams@.len() as int) <= u64::MAX,
        sum_of(terms_lens(metas@), metas@.len() as int) <= u64::MAX,
        sum_of(postings_lens(metas@), metas@.len() as int) <= u64::MAX,
    ensures
        stats.distinct_grams == sum_of(grams@, grams@.len() as int),
        stats.terms_fst_bytes == sum_of(terms_lens(metas@), metas@.len() as int),
        stats.postings_bytes == sum_of(postings_lens(metas@), metas@.len() as int),
{
    let mut stats = IndexStats { distinct_grams: 0, terms_fst_bytes: 0, postings_bytes: 0 };
    let mut s: usize = 0;
    while s < metas.len()
        invariant
            s <= metas.len(),
            grams@.len() == metas@.len(),
            sum_of(grams@, grams@.len() as int) <= u64::MAX,
            sum_of(terms_lens(metas@), metas@.len() as int) <= u64::MAX,
            sum_of(postings_lens(metas@), metas@.len() as int) <= u64::MAX,
            stats.distinct_grams == sum_of(grams@, s as int),
            stats.terms_fst_bytes == sum_of(terms_lens(metas@), s as int),
            stats.postings_bytes == sum_of(postings_lens(metas@), s as int),
        decreases metas.len() - s,
    {
        proof {
            lemma_sum_grows(grams@, s + 1, grams@.len() as int);
            lemma_sum_grows(terms_lens(metas@), s + 1, metas@.len() as int);
            lemma_sum_grows(postings_lens(metas@), s + 1, metas@.len() as int);
        }
        stats.distinct_grams = stats.distinct_grams + grams[s];
        stats.terms_fst_bytes = stats.terms_fst_bytes + metas[s].terms_fst_len;
        stats.postings_bytes = stats.postings_bytes + metas[s].postings_len;
        s = s + 1;
    }
    stats
}

/// The live documents of the first `n` segments.
pub open spec fn live_total(metas: Seq<SegmentMeta>, dead: Seq<DeadSet>, n: int) -> int
    decreases n,
{
    if n <= 0 {
        0
    } else {
        live_total(metas, dead, n - 1) + metas[n - 1].doc_count - dead[n - 1].documents@.len()
    }
}

/// As many dead sets as segments, none with more documents than its segment.
pub open spec fn dead_fits(metas: Seq<SegmentMeta>, dead: Seq<DeadSet>) -> bool {
    &&& dead.len() == metas.len()
    &&& forall|k: int|
        0 <= k < metas.len() ==> (#[trigger] dead[k]).documents@.len() <= metas[k].doc_count
}

proof fn lemma_live_grows(metas: Seq<SegmentMeta>, dead: Seq<DeadSet>, m: int, n: int)
    requires
        dead_fits(metas, dead),
        0 <= m <= n <= metas.len(),
    ensures
        0 <= live_total(metas, dead, m) <= live_total(metas, dead, n),
    decreases n,
{
    if m < n {
        lemma_live_grows(metas, dead, m, n - 1);
        assert(dead[n - 1].documents@.len() <= metas[n - 1].doc_count);
    } else if m > 0 {
        lemma_live_grows(metas, dead, m - 1, n - 1);
        assert(dead[n - 1].documents@.len() <= metas[n - 1].doc_count);
    }
}

/// How many documents an index can find.
pub fn total_docs(metas: &[SegmentMeta], dead: &[DeadSet]) -> (total: usize)
    requires
        dead_fits(metas@, dead@),
        live_total(metas@, dead@, metas@.len() as int) <= usize::MAX,
    ensures
        total == live_total(metas@, dead@, metas@.len() as int),
{
    let mut total: usize = 0;
    let mut s: usize = 0;
    while s < metas.len()
        invariant
            s <= metas.len(),
            dead_fits(metas@, dead@),
            live_total(metas@, dead@, metas@.len() as int) <= usize::MAX,
            total == live_total(metas@, dead@, s as int),
        decreases metas.len() - s,
    {
        proof {
            lemma_live_grows(metas@, dead@, s + 1, metas@.len() as int);
            assert(dead@[s as int].documents@.len() <= metas@[s as int].doc_count);
        }
        total = total + (metas[s].doc_count as usize - dead[s].documents.len());
        s = s + 1;
    }
    total
}

/// What a search found and what it took.
#[derive(Debug, PartialEq, Eq)]
pub struct SearchStats {
    /// Sorted keys of the documents with a match, where they were asked for.
    pub hits: Vec<String>,
    /// How many documents have a match.
    pub hit_count: usize,
    pub candidates: usize,
    pub total_docs: usize,
    pub bytes_fetched: usize,
    pub regional_docs: usize,
    pub whole_docs: usize,
    pub candidate_bytes: usize,
    pub decoded_bytes: usize,
    /// Objects that could not be decoded when the index was built: nothing of them is found.
    pub excluded_objects: usize,
    pub patterns: usize,
    pub exact_patterns: usize,
    pub proof_patterns: usize,
    pub fallback_patterns: usize,
}

/// How a search goes through its documents.
#[derive(Debug, Clone, Copy, PartialEq, Eq, Structural)]
pub enum BatchMode {
    /// Workers fetch and search one document each, until one matches.
    EachDocument,
    /// Documents are fetched and searched in turn, until one matches.
    UntilMatch,
    /// Documents are fetched and searched in turn.
    InTurn,
    /// One fetches, and workers search what it puts into a queue of this length.
    Queue { len: usize },
}

/// How many workers search a batch.
pub open spec fn job_count(documents: usize, threads: usize) -> int {
    if documents <= 1 {
        1
    } else if threads < documents {
        threads as int
    } else {
        documents as int
    }
}

/// How a batch of documents is gone through, with `threads` workers to be had.
pub fn batch_mode(
    documents: usize,
    threads: usize,
    max_count: Option<u64>,
    by_document: bool,
) -> (mode: BatchMode)
    requires
        0 < threads <= usize::MAX / 2,
    ensures
        mode == if max_count == Some(1u64) {
            if by_document && job_count(documents, threads) > 1 {
                BatchMode::EachDocument
            } else {
                BatchMode::UntilMatch
            }
        } else if job_count(documents, threads) == 1 {
            BatchMode::InTurn
        } else {
            BatchMode::Queue { len: (job_count(documents, threads) * 2) as usize }
        },
{
    let jobs: usize = if documents <= 1 {
        1
    } else if threads < documents {
        threads
    } else {
        documents
    };
    let one: bool = match max_count {
        Some(n) => n == 1,
        None => false,
    };
    if one {
        if by_document && jobs > 1 {
            BatchMode::EachDocument
        } else {
            BatchMode::UntilMatch
        }
    } else if jobs == 1 {
        BatchMode::InTurn
    } else {
        BatchMode::Queue { len: jobs * 2 }
    }
}

/// What was fetched and found of a batch so far. A document's size counts once, though it may be
/// fetched in steps.
#[derive(Debug)]
pub struct BatchLog {
    /// The candidates of which anything was fetched.
    pub recorded: Vec<bool>,
    /// The candidates that matched.
    pub matched: Vec<bool>,
    pub hits: Vec<String>,
    pub result: BatchResult,
}

/// The sum as a counter holds it.
pub open spec fn wrapped(a: usize, b: usize) -> usize {
    if a + b > usize::MAX {
        (a + b - (usize::MAX + 1)) as usize
    } else {
        (a + b) as usize
    }
}

/// Nothing fetched, nothing found.
pub open spec fn empty_result() -> BatchResult {
    BatchResult {
        hit_count: 0,
        regional_docs: 0,
        whole_docs: 0,
        candidate_bytes: 0,
        decoded_bytes: 0,
        stopped: false,
    }
}

/// How many flags are set.
pub open spec fn set_count(flags: Seq<bool>) -> nat
    decreases flags.len(),
{
    if flags.len() == 0 {
        0
    } else {
        set_count(flags.drop_last()) + if flags.last() {
            1nat
        } else {
            0
        }
    }
}

proof fn lemma_set_count(flags: Seq<bool>)
    ensures
        set_count(flags) <= flags.len(),
        (forall|d: int| 0 <= d < flags.len() ==> !(#[trigger] flags[d])) ==> set_count(flags) == 0,
    decreases flags.len(),
{
    if flags.len() > 0 {
        lemma_set_count(flags.drop_last());
        if forall|d: int| 0 <= d < flags.len() ==> !(#[trigger] flags[d]) {
            assert forall|d: int| 0 <= d < flags.len() - 1 implies !(
            #[trigger] flags.drop_last()[d]) by {
                assert(flags.drop_last()[d] == flags[d]);
            }
            assert(!flags[flags.len() - 1]);
        }
    }
}

proof fn lemma_set_more(flags: Seq<bool>, d: int)
    requires
        0 <= d < flags.len(),
        !flags[d],
    ensures
        set_count(flags.update(d, true)) == set_count(flags) + 1,
    decreases flags.len(),
{
    let after = flags.update(d, true);
    if d == flags.len() - 1 {
        assert(after.drop_last() =~= flags.drop_last());
    } else {
        assert(after.drop_last() =~= flags.drop_last().update(d, true));
        lemma_set_more(flags.drop_last(), d);
    }
}

impl BatchLog {
    /// A hit is counted for each candidate that matched, and no key is noted but of a hit.
    pub open spec fn wf(&self) -> bool {
        &&& self.matched@.len() == self.recorded@.len()
        &&& self.result.hit_count == set_count(self.matched@)
        &&& self.hits@.len() <= self.result.hit_count
    }

    pub fn new(documents: usize) -> (log: BatchLog)
        ensures
            log.wf(),
            log.recorded@ == Seq::new(documents as nat, |d: int| false),
            log.matched@ == Seq::new(documents as nat, |d: int| false),
            log.hits@.len() == 0,
            log.result == empty_result(),
    {
        let mut recorded: Vec<bool> = Vec::new();
        let mut matched: Vec<bool> = Vec::new();
        while recorded.len() < documents
            invariant
                recorded@.len() <= documents,
                matched@ == recorded@,
                forall|d: int| 0 <= d < recorded@.len() ==> !(#[trigger] recorded@[d]),
            decreases documents - recorded.len(),
        {
            recorded.push(false);
            matched.push(false);
        }
        assert(recorded@ =~= Seq::new(documents as nat, |d: int| false));
        proof {
            lemma_set_count(matched@);
        }
        BatchLog {
            recorded,
            matched,
            hits: Vec::new(),
            result: BatchResult {
                hit_count: 0,
                regional_docs: 0,
                whole_docs: 0,
                candidate_bytes: 0,
                decoded_bytes: 0,
                stopped: false,
            },
        }
    }

    /// The batch has ended. Says whether it counts: where it failed, its error is reported.
    pub fn close(&mut self, end: BatchEnd) -> (counts: bool)
        ensures
            counts == (end == BatchEnd::Complete || end == BatchEnd::Stopped),
            *final(self) == (BatchLog {
                result: BatchResult { stopped: end == BatchEnd::Stopped, ..old(self).result },
                ..*old(self)
            }),
            old(self).wf() ==> final(self).wf(),
    {
        self.result.stopped = match end {
            BatchEnd::Stopped => true,
            _ => false,
        };
        match end {
            BatchEnd::Complete => true,
            BatchEnd::Stopped => true,
            _ => false,
        }
    }

    /// Bytes of a document were fetched, of the whole document or of regions of it. Counters wrap.
    pub fn record_fetch(&mut self, document: usize, whole: bool, fetched: usize, decoded: usize)
        requires
            document < old(self).recorded@.len(),
        ensures
            old(self).wf() ==> final(self).wf(),
            final(self).recorded@ == old(self).recorded@.update(document as int, true),
            final(self).matched@ == old(self).matched@,
            final(self).hits@ == old(self).hits@,
            final(self).result == (BatchResult {
                candidate_bytes: wrapped(
                    old(self).result.candidate_bytes,
                    fetched,
                ),
                decoded_bytes: if old(self).recorded@[document as int] {
                    old(self).result.decoded_bytes
                } else {
                    wrapped(
                        old(self).result.decoded_bytes,
                        decoded,
                    )
                },
                whole_docs: if !old(self).recorded@[document as int] && whole {
                    wrapped(old(self).result.whole_docs, 1)
                } else {
                    old(self).result.whole_docs
                },
                regional_docs: if !old(self).recorded@[document as int] && !whole {
                    wrapped(old(self).result.regional_docs, 1)
                } else {
                    old(self).result.regional_docs
                },
                ..old(self).result
            }),
    {
        self.result.candidate_bytes = self.result.candidate_bytes.wrapping_add(fetched);
        if !self.recorded[document] {
            self.recorded.set(document, true);
            self.result.decoded_bytes = self.result.decoded_bytes.wrapping_add(decoded);
            if whole {
                self.result.whole_docs = self.result.whole_docs.wrapping_add(1);
            } else {
                self.result.regional_docs = self.result.regional_docs.wrapping_add(1);
            }
        }
        assert(self.recorded@ =~= old(self).recorded@.update(document as int, true));
    }

    /// A candidate matched, which counts once: `key` is noted where keys are asked for, and
    /// `extra` bytes were fetched to show the match. Says whether the sink has had enough.
    pub fn record_hit(
        &mut self,
        document: usize,
        key: Option<String>,
        extra: usize,
        flow: SinkFlow,
    ) -> (stop: bool)
        requires
            old(self).wf(),
            document < old(self).matched@.len(),
            !old(self).matched@[document as int],
        ensures
            final(self).wf(),
            stop == (flow == SinkFlow::Stop),
            final(self).recorded@ == old(self).recorded@,
            final(self).matched@ == old(self).matched@.update(document as int, true),
            final(self).hits@ == match key {
                Some(key) => old(self).hits@.push(key),
                None => old(self).hits@,
            },
            old(self).result.hit_count < usize::MAX,
            final(self).result == (BatchResult {
                hit_count: (old(self).result.hit_count + 1) as usize,
                candidate_bytes: wrapped(old(self).result.candidate_bytes, extra),
                ..old(self).result
            }),
    {
        proof {
            lemma_set_more(self.matched@, document as int);
            lemma_set_count(self.matched@.update(document as int, true));
            assert(self.matched@.len() == self.matched.len());
        }
        self.matched.set(document, true);
        self.result.candidate_bytes = self.result.candidate_bytes.wrapping_add(extra);
        self.result.hit_count = self.result.hit_count + 1;
        if let Some(key) = key {
            self.hits.push(key);
        }
        flow == SinkFlow::Stop
    }
}

/// Hits are of different candidates: there are no more of them than candidates.
pub proof fn hits_are_of_candidates(log: BatchLog)
    requires
        log.wf(),
    ensures
        log.hits@.len() <= log.result.hit_count <= log.matched@.len(),
{
    lemma_set_count(log.matched@);
}

/// The documents whose flag is set.
pub open spec fn flagged(documents: Seq<DocAddress>, flags: Seq<bool>) -> Seq<DocAddress>
    decreases documents.len(),
{
    if documents.len() == 0 {
        Seq::empty()
    } else {
        let front = flagged(documents.drop_last(), flags.drop_last());
        if flags.last() {
            front.push(documents.last())
        } else {
            front
        }
    }
}

/// Each flag says whether the scope admits the document's key.
pub open spec fn flags_admitted<F: Fn(&str) -> bool>(
    scope: KeyScope<'_, F>,
    documents: Seq<DocAddress>,
    flags: Seq<bool>,
) -> bool {
    &&& flags.len() == documents.len()
    &&& forall|d: int|
        0 <= d < flags.len() ==> scope.says(documents[d].display_key@, #[trigger] flags[d])
}

/// A search under way.
#[derive(Debug)]
pub struct SearchRun {
    pub hits: Vec<String>,
    pub totals: SearchTotals,
    /// The candidates of the batches that were taken back.
    pub searched: usize,
}

impl SearchRun {
    /// There are no more keys than hits, no more hits than candidates that were searched, and no
    /// more of these than candidates.
    pub open spec fn wf(&self) -> bool {
        self.hits@.len() <= self.totals.hit_count <= self.searched <= self.totals.candidates
    }

    pub fn new() -> (run: SearchRun)
        ensures
            run.wf(),
            run.hits@.len() == 0,
            run.searched == 0,
            run.totals == (SearchTotals {
                hit_count: 0,
                candidates: 0,
                bytes_fetched: 0,
                regional_docs: 0,
                whole_docs: 0,
                decoded_bytes: 0,
            }),
    {
        SearchRun { hits: Vec::new(), totals: SearchTotals::new(), searched: 0 }
    }

    /// Take a batch of candidates: those that the scope admits are counted, and are to be
    /// searched.
    pub fn take_candidates<F: Fn(&str) -> bool>(
        &mut self,
        scope: &KeyScope<'_, F>,
        documents: Vec<DocAddress>,
    ) -> (admitted: Result<Vec<DocAddress>, IndexError>)
        requires
            scope.answers(),
        ensures
            exists|flags: Seq<bool>| #[trigger]
                flags_admitted(*scope, documents@, flags) && match admitted {
                    Ok(list) => {
                        &&& list@ == flagged(documents@, flags)
                        &&& old(self).wf() ==> final(self).wf()
                        &&& final(self).hits@ == old(self).hits@
                        &&& final(self).searched == old(self).searched
                        &&& old(self).totals.candidates + list@.len() <= usize::MAX
                        &&& final(self).totals == (SearchTotals {
                            candidates: (old(self).totals.candidates + list@.len()) as usize,
                            ..old(self).totals
                        })
                    },
                    Err(e) => {
                        &&& e == IndexError::CandidateTotal
                        &&& old(self).totals.candidates + flagged(documents@, flags).len()
                            > usize::MAX
                        &&& *final(self) == *old(self)
                    },
                },
    {
        let mut flags: Vec<bool> = Vec::new();
        while flags.len() < documents.len()
            invariant
                scope.answers(),
                flags@.len() <= documents@.len(),
                forall|d: int|
                    0 <= d < flags@.len() ==> scope.says(
                        documents@[d].display_key@,
                        #[trigger] flags@[d],
                    ),
            decreases documents.len() - flags.len(),
        {
            let key: &str = documents[flags.len()].display_key.as_str();
            let flag: bool = scope.admits(key);
            proof {
                assert(scope.says_of(key, flag));
            }
            flags.push(flag);
        }
        let ghost all_flags = flags@;
        assert(flags_admitted(*scope, documents@, all_flags));
        let list = keep_flagged(documents, flags);
        match self.totals.add_candidates(list.len()) {
            Ok(_) => Ok(list),
            Err(e) => Err(e),
        }
    }

    /// Take back a batch of candidates with what was found and took. Says whether to go on.
    pub fn take_batch(&mut self, log: BatchLog) -> (more: Result<bool, IndexError>)
        requires
            old(self).wf(),
            log.wf(),
            old(self).searched + log.matched@.len() <= old(self).totals.candidates,
        ensures
            match more {
                Ok(more) => {
                    &&& final(self).wf()
                    &&& final(self).hits@ == old(self).hits@ + log.hits@
                    &&& old(self).totals.overflow(log.result) is None
                    &&& more == !log.result.stopped
                    &&& final(self).searched == old(self).searched + log.matched@.len()
                    &&& final(self).totals == (SearchTotals {
                        hit_count: (old(self).totals.hit_count + log.result.hit_count) as usize,
                        candidates: old(self).totals.candidates,
                        bytes_fetched: (old(self).totals.bytes_fetched
                            + log.result.candidate_bytes) as usize,
                        regional_docs: (old(self).totals.regional_docs
                            + log.result.regional_docs) as usize,
                        whole_docs: (old(self).totals.whole_docs + log.result.whole_docs) as usize,
                        decoded_bytes: (old(self).totals.decoded_bytes
                            + log.result.decoded_bytes) as usize,
                    })
                },
                Err(e) => old(self).totals.overflow(log.result) == Some(e)
                    && *final(self) == *old(self),
            },
    {
        proof {
            lemma_set_count(log.matched@);
        }
        let searched: usize = self.searched + log.matched.len();
        let result: BatchResult = log.result;
        match self.totals.add_batch(result) {
            Ok(more) => {
                let mut hits = log.hits;
                self.hits.append(&mut hits);
                self.searched = searched;
                Ok(more)
            },
            Err(e) => Err(e),
        }
    }

    /// The statistics of the search over an index with `total_docs` documents and
    /// `excluded_objects` objects that could not be decoded.
    pub fn finish(
        self,
        total_docs: usize,
        excluded_objects: usize,
        kinds: &[PatternKind],
    ) -> (stats: SearchStats)
        requires
            self.wf(),
        ensures
            stats.hits@.len() <= stats.hit_count <= stats.candidates,
            stats.hits@ == crate::ranking::rank_sort(self.hits@),
            crate::ranking::in_rank_order(stats.hits@),
            stats.hits@.to_multiset() == self.hits@.to_multiset(),
            stats == (SearchStats {
                hits: stats.hits,
                hit_count: self.totals.hit_count,
                candidates: self.totals.candidates,
                total_docs,
                bytes_fetched: self.totals.bytes_fetched,
                regional_docs: self.totals.regional_docs,
                whole_docs: self.totals.whole_docs,
                candidate_bytes: self.totals.bytes_fetched,
                decoded_bytes: self.totals.decoded_bytes,
                excluded_objects,
                patterns: kinds@.len() as usize,
                exact_patterns: kind_total(kinds@, PatternKind::Exact),
                proof_patterns: kind_total(kinds@, PatternKind::Proof),
                fallback_patterns: kind_total(kinds@, PatternKind::Fallback),
            }),
    {
        proof {
            broadcast use vstd::seq_lib::group_to_multiset_ensures;

            crate::ranking::ranking_orders_and_keeps(self.hits@);
            let sorted = crate::ranking::rank_sort(self.hits@);
            assert(sorted.to_multiset().len() == sorted.len());
            assert(self.hits@.to_multiset().len() == self.hits@.len());
        }
        SearchStats {
            hits: rank_sorted(self.hits),
            hit_count: self.totals.hit_count,
            candidates: self.totals.candidates,
            total_docs,
            bytes_fetched: self.totals.bytes_fetched,
            regional_docs: self.totals.regional_docs,
            whole_docs: self.totals.whole_docs,
            candidate_bytes: self.totals.bytes_fetched,
            decoded_bytes: self.totals.decoded_bytes,
            excluded_objects,
            patterns: kinds.len(),
            exact_patterns: count_pattern_kind(kinds, PatternKind::Exact),
            proof_patterns: count_pattern_kind(kinds, PatternKind::Proof),
            fallback_patterns: count_pattern_kind(kinds, PatternKind::Fallback),
        }
    }

    /// The error of a search that failed: where candidates had been searched, a change of the
    /// index is no longer one after which the search can simply be repeated.
    pub fn failure(&self, index_changed: bool) -> (late: Option<IndexError>)
        ensures
            late == if index_changed && self.totals.candidates > 0 {
                Some(IndexError::IndexChangedLate)
            } else {
                None
            },
    {
        if index_changed && self.totals.candidates > 0 {
            Some(IndexError::IndexChangedLate)
        } else {
            None
        }
    }
}

/// The keys of those of the first `n` documents in which the pattern matches in a line.
pub open spec fn hit_keys(
    pattern: Seq<char>,
    documents: Seq<DocAddress>,
    bodies: Seq<Vec<u8>>,
    n: int,
) -> Seq<Seq<char>>
    decreases n,
{
    if n <= 0 {
        Seq::empty()
    } else {
        let front = hit_keys(pattern, documents, bodies, n - 1);
        if crate::program::line_matches(pattern, bodies[n - 1]@) {
            front.push(documents[n - 1].display_key@)
        } else {
            front
        }
    }
}

/// How many bytes the first `n` documents have, as a counter holds it.
pub open spec fn bytes_counted(bodies: Seq<Vec<u8>>, n: int) -> usize
    decreases n,
{
    if n <= 0 {
        0
    } else {
        wrapped(bytes_counted(bodies, n - 1), bodies[n - 1]@.len() as usize)
    }
}

/// What searching the first `n` documents, each read whole, takes and finds.
pub open spec fn whole_result(
    pattern: Seq<char>,
    documents: Seq<DocAddress>,
    bodies: Seq<Vec<u8>>,
    n: int,
) -> BatchResult {
    BatchResult {
        hit_count: hit_keys(pattern, documents, bodies, n).len() as usize,
        regional_docs: 0,
        whole_docs: n as usize,
        candidate_bytes: bytes_counted(bodies, n),
        decoded_bytes: bytes_counted(bodies, n),
        stopped: false,
    }
}

pub open spec fn key_views(keys: Seq<String>) -> Seq<Seq<char>> {
    keys.map_values(|key: String| key@)
}

impl SearchRun {
    /// Search a batch of documents that were read whole, and take it back: the keys of those in
    /// which the pattern matches are noted.
    pub fn search_batch(
        &mut self,
        program: &Program,
        documents: &[DocAddress],
        bodies: &[Vec<u8>],
    ) -> (searched: Result<(), IndexError>)
        requires
            old(self).wf(),
            documents@.len() == bodies@.len(),
            old(self).searched + documents@.len() <= old(self).totals.candidates,
        ensures
            ({
                let result = whole_result(
                    program@,
                    documents@,
                    bodies@,
                    documents@.len() as int,
                );
                match searched {
                    Ok(_) => {
                        &&& final(self).wf()
                        &&& old(self).totals.overflow(result) is None
                        &&& key_views(final(self).hits@) == key_views(old(self).hits@) + hit_keys(
                            program@,
                            documents@,
                            bodies@,
                            documents@.len() as int,
                        )
                        &&& final(self).searched == old(self).searched + documents@.len()
                        &&& final(self).totals == (SearchTotals {
                            hit_count: (old(self).totals.hit_count + result.hit_count) as usize,
                            candidates: old(self).totals.candidates,
                            bytes_fetched: (old(self).totals.bytes_fetched
                                + result.candidate_bytes) as usize,
                            regional_docs: old(self).totals.regional_docs,
                            whole_docs: (old(self).totals.whole_docs + result.whole_docs) as usize,
                            decoded_bytes: (old(self).totals.decoded_bytes
                                + result.decoded_bytes) as usize,
                        })
                    },
                    Err(e) => {
                        &&& old(self).totals.overflow(result) == Some(e)
                        &&& *final(self) == *old(self)
                    },
                }
            }),
            forall|d: int|
                0 <= d < bodies@.len() && crate::program::line_matches(
                    program@,
                    (#[trigger] bodies@[d])@,
                ) ==> crate::program::line_accounted(program@, bodies@[d]@),
    {
        let mut log = BatchLog::new(documents.len());
        let mut d: usize = 0;
        proof {
            assert(key_views(log.hits@) =~= Seq::empty());
        }
        while d < documents.len()
            invariant
                d <= documents@.len(),
                documents@.len() == bodies@.len(),
                log.wf(),
                log.recorded@.len() == documents@.len(),
                log.matched@.len() == documents@.len(),
                forall|k: int|
                    d <= k < documents@.len() ==> !(#[trigger] log.recorded@[k])
                        && !log.matched@[k],
                log.result == whole_result(program@, documents@, bodies@, d as int),
                log.result.hit_count == hit_keys(program@, documents@, bodies@, d as int).len(),
                key_views(log.hits@) == hit_keys(program@, documents@, bodies@, d as int),
                forall|k: int|
                    0 <= k < d && crate::program::line_matches(
                        program@,
                        (#[trigger] bodies@[k])@,
                    ) ==> crate::program::line_accounted(program@, bodies@[k]@),
            decreases documents.len() - d,
        {
            let body: &[u8] = bodies[d].as_slice();
            assert(!log.recorded@[d as int] && !log.matched@[d as int]);
            log.record_fetch(d, true, body.len(), body.len());
            if has_line_match(program, body) {
                let key: String = documents[d].display_key.clone();
                let ghost noted = log.hits@;
                log.record_hit(d, Some(key), 0, SinkFlow::Continue);
                assert(key_views(log.hits@) =~= key_views(noted).push(key@));
            }
            d = d + 1;
        }
        let ghost noted = log.hits@;
        match self.take_batch(log) {
            Ok(_) => {
                assert(key_views(self.hits@) =~= key_views(old(self).hits@) + key_views(noted));
                Ok(())
            },
            Err(e) => Err(e),
        }
    }
}

/// Searching documents batch by batch finds what searching them at once finds.
pub proof fn batches_find_as_one(
    pattern: Seq<char>,
    first: Seq<DocAddress>,
    second: Seq<DocAddress>,
    first_bodies: Seq<Vec<u8>>,
    second_bodies: Seq<Vec<u8>>,
)
    requires
        first.len() == first_bodies.len(),
        second.len() == second_bodies.len(),
    ensures
        hit_keys(
            pattern,
            first + second,
            first_bodies + second_bodies,
            (first.len() + second.len()) as int,
        ) == hit_keys(pattern, first, first_bodies, first.len() as int) + hit_keys(
            pattern,
            second,
            second_bodies,
            second.len() as int,
        ),
{
    lemma_batch_of_both(
        pattern,
        first,
        second,
        first_bodies,
        second_bodies,
        second.len() as int,
    );
}

proof fn lemma_batch_of_both(
    pattern: Seq<char>,
    first: Seq<DocAddress>,
    second: Seq<DocAddress>,
    first_bodies: Seq<Vec<u8>>,
    second_bodies: Seq<Vec<u8>>,
    n: int,
)
    requires
        first.len() == first_bodies.len(),
        second.len() == second_bodies.len(),
        -first.len() <= n <= second.len(),
    ensures
        hit_keys(
            pattern,
            first + second,
            first_bodies + second_bodies,
            first.len() + n,
        ) == if n <= 0 {
            hit_keys(pattern, first, first_bodies, first.len() + n)
        } else {
            hit_keys(pattern, first, first_bodies, first.len() as int) + hit_keys(
                pattern,
                second,
                second_bodies,
                n,
            )
        },
    decreases first.len() + n,
{
    let all = first + second;
    let bodies = first_bodies + second_bodies;
    let at = first.len() + n - 1;
    if at >= 0 {
        lemma_batch_of_both(pattern, first, second, first_bodies, second_bodies, n - 1);
        if n <= 0 {
            assert(all[at] == first[at] && bodies[at] == first_bodies[at]);
        } else {
            assert(all[at] == second[n - 1] && bodies[at] == second_bodies[n - 1]);
            assert(hit_keys(pattern, second, second_bodies, 0) =~= Seq::empty());
            let front = hit_keys(pattern, first, first_bodies, first.len() as int);
            assert(front + hit_keys(pattern, second, second_bodies, 0) =~= front);
            assert(hit_keys(pattern, all, bodies, at + 1) =~= front + hit_keys(
                pattern,
                second,
                second_bodies,
                n,
            ));
        }
    }
}

/// The bodies whose flag is set.
pub open spec fn flagged_bodies(bodies: Seq<Vec<u8>>, flags: Seq<bool>) -> Seq<Vec<u8>>
    decreases bodies.len(),
{
    if bodies.len() == 0 {
        Seq::empty()
    } else {
        let front = flagged_bodies(bodies.drop_last(), flags.drop_last());
        if flags.last() {
            front.push(bodies.last())
        } else {
            front
        }
    }
}

/// Two selections of documents that agree wherever the pattern matches have the same hits.
pub proof fn selections_find_alike(
    pattern: Seq<char>,
    documents: Seq<DocAddress>,
    bodies: Seq<Vec<u8>>,
    left: Seq<bool>,
    right: Seq<bool>,
)
    requires
        documents.len() == bodies.len(),
        documents.len() == left.len(),
        documents.len() == right.len(),
        forall|d: int|
            0 <= d < bodies.len() && crate::program::line_matches(pattern, (#[trigger] bodies[d])@)
                ==> left[d] == right[d],
    ensures
        flagged(documents, left).len() == flagged_bodies(bodies, left).len(),
        flagged(documents, right).len() == flagged_bodies(bodies, right).len(),
        hit_keys(
            pattern,
            flagged(documents, left),
            flagged_bodies(bodies, left),
            flagged(documents, left).len() as int,
        ) == hit_keys(
            pattern,
            flagged(documents, right),
            flagged_bodies(bodies, right),
            flagged(documents, right).len() as int,
        ),
    decreases documents.len(),
{
    if documents.len() > 0 {
        let docs = documents.drop_last();
        let texts = bodies.drop_last();
        let n = docs.len() as int;
        assert forall|d: int|
            0 <= d < texts.len() && crate::program::line_matches(pattern, (#[trigger] texts[d])@)
            implies left.drop_last()[d] == right.drop_last()[d] by {
            assert(texts[d] == bodies[d]);
        }
        selections_find_alike(pattern, docs, texts, left.drop_last(), right.drop_last());
        assert(bodies[n] == bodies.last());
        if left.last() {
            lemma_hits_of_front(
                pattern,
                flagged(documents, left),
                flagged_bodies(bodies, left),
                flagged(docs, left.drop_last()),
                flagged_bodies(texts, left.drop_last()),
                flagged(docs, left.drop_last()).len() as int,
            );
        }
        if right.last() {
            lemma_hits_of_front(
                pattern,
                flagged(documents, right),
                flagged_bodies(bodies, right),
                flagged(docs, right.drop_last()),
                flagged_bodies(texts, right.drop_last()),
                flagged(docs, right.drop_last()).len() as int,
            );
        }
    }
}

proof fn lemma_hits_of_front(
    pattern: Seq<char>,
    documents: Seq<DocAddress>,
    bodies: Seq<Vec<u8>>,
    front: Seq<DocAddress>,
    front_bodies: Seq<Vec<u8>>,
    n: int,
)
    requires
        0 <= n <= front.len() <= documents.len(),
        n <= front_bodies.len() <= bodies.len(),
        forall|d: int| 0 <= d < n ==> #[trigger] documents[d] == front[d],
        forall|d: int| 0 <= d < n ==> #[trigger] bodies[d] == front_bodies[d],
    ensures
        hit_keys(pattern, documents, bodies, n) == hit_keys(pattern, front, front_bodies, n),
    decreases n,
{
    if n > 0 {
        lemma_hits_of_front(pattern, documents, bodies, front, front_bodies, n - 1);
        assert(documents[n - 1] == front[n - 1] && bodies[n - 1] == front_bodies[n - 1]);
    }
}

/// How many of the patterns are of a kind.
pub open spec fn kind_total(kinds: Seq<PatternKind>, kind: PatternKind) -> usize {
    crate::search::kind_count(kinds, kind, kinds.len() as int) as usize
}

/// Whether there is anything to search for: no search finds up to zero matching lines.
pub fn wants_matches(max_count: Option<u64>) -> (wants: bool)
    ensures
        wants == (max_count != Some(0u64)),
{
    match max_count {
        Some(n) => n != 0,
        None => true,
    }
}

fn keep_flagged(documents: Vec<DocAddress>, flags: Vec<bool>) -> (kept: Vec<DocAddress>)
    requires
        flags@.len() == documents@.len(),
    ensures
        kept@ == flagged(documents@, flags@),
{
    let mut source = documents;
    let mut marks = flags;
    let mut reversed: Vec<DocAddress> = Vec::new();
    let ghost whole = flagged(documents@, flags@);
    assert(whole =~= flagged(source@, marks@) + reversed@.reverse());
    while source.len() > 0
        invariant
            marks@.len() == source@.len(),
            whole == flagged(source@, marks@) + reversed@.reverse(),
        decreases source.len(),
    {
        let ghost docs = source@;
        let ghost given = marks@;
        let ghost out = reversed@;
        if let Some(document) = source.pop() {
            if let Some(mark) = marks.pop() {
                assert(source@ =~= docs.drop_last());
                assert(marks@ =~= given.drop_last());
                if mark {
                    reversed.push(document);
                    assert(reversed@.reverse() =~= seq![document] + out.reverse());
                }
                assert(whole =~= flagged(source@, marks@) + reversed@.reverse());
            }
        }
    }
    let mut kept: Vec<DocAddress> = Vec::new();
    assert(kept@ + reversed@.reverse() =~= whole);
    while reversed.len() > 0
        invariant
            kept@ + reversed@.reverse() == whole,
        decreases reversed.len(),
    {
        let ghost before = reversed@;
        if let Some(document) = reversed.pop() {
            assert(before.reverse() =~= seq![document] + reversed@.reverse());
            kept.push(document);
            assert(kept@ + reversed@.reverse() =~= whole);
        }
    }
    assert(kept@ =~= whole);
    kept
}

/// Nothing outside the scope's prefix is searched, and without a predicate everything inside it
/// is.
pub proof fn admitted_documents_are_in_scope<F: Fn(&str) -> bool>(
    scope: KeyScope<'_, F>,
    documents: Seq<DocAddress>,
    flags: Seq<bool>,
    d: int,
)
    requires
        flags_admitted(scope, documents, flags),
        0 <= d < documents.len(),
    ensures
        flags[d] ==> flagged(documents, flags).contains(documents[d]) && scope.in_prefix(
            documents[d].display_key@,
        ),
        scope.matches is None && scope.in_prefix(documents[d].display_key@) ==> flags[d],
    decreases documents.len(),
{
    assert(scope.says(documents[d].display_key@, flags[d]));
    let front = documents.drop_last();
    let marks = flags.drop_last();
    let all = flagged(documents, flags);
    if flags[d] {
        if d == documents.len() - 1 {
            assert(all.last() == documents[d]);
        } else {
            assert(flags_admitted(scope, front, marks)) by {
                assert forall|k: int| 0 <= k < marks.len() implies scope.says(
                    front[k].display_key@,
                    #[trigger] marks[k],
                ) by {
                    assert(scope.says(documents[k].display_key@, flags[k]));
                }
            }
            admitted_documents_are_in_scope(scope, front, marks, d);
            let inner = flagged(front, marks);
            let k = choose|k: int| 0 <= k < inner.len() && inner[k] == documents[d];
            assert(all[k] == documents[d]);
        }
    }
}

/// Documents out of scope are left out: each document that is searched is one of those given, and the
/// scope admits its key.
pub proof fn searched_documents_are_admitted(
    documents: Seq<DocAddress>,
    flags: Seq<bool>,
    a: int,
)
    requires
        flags.len() == documents.len(),
        0 <= a < flagged(documents, flags).len(),
    ensures
        exists|d: int|
            0 <= d < documents.len() && flags[d] && #[trigger] documents[d] == flagged(
                documents,
                flags,
            )[a],
    decreases documents.len(),
{
    if documents.len() > 0 {
        let front = documents.drop_last();
        let marks = flags.drop_last();
        let before = flagged(front, marks);
        if a < before.len() {
            searched_documents_are_admitted(front, marks, a);
            let d = choose|d: int| 0 <= d < front.len() && marks[d] && #[trigger] front[d] == before[a];
            assert(documents[d] == front[d] && flags[d] == marks[d]);
        } else {
            assert(documents[documents.len() - 1] == flagged(documents, flags)[a]);
        }
    }
}

/// Totals count every segment once: each with its number, and with the documents in it that live.
pub proof fn totals_count_every_segment(
    numbers: Seq<u64>,
    metas: Seq<SegmentMeta>,
    dead: Seq<DeadSet>,
    n: int,
)
    requires
        0 <= n,
    ensures
        sum_of(numbers, 0) == 0,
        sum_of(numbers, n + 1) == sum_of(numbers, n) + numbers[n],
        live_total(metas, dead, 0) == 0,
        live_total(metas, dead, n + 1) == live_total(metas, dead, n) + metas[n].doc_count
            - dead[n].documents@.len(),
{
}

} // verus!
