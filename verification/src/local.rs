//! Local files as sources: their versions, and how candidates among them are fetched.

use vstd::prelude::*;

use crate::addresses::DocAddress;
use crate::error::IndexError;
use crate::format::SourceEncoding;
use crate::text::hex;
use crate::text::text_eq;
use crate::text::text_less;
use crate::update::ListedObject;

verus! {

/// How many bytes of local files are read at a time, over all workers.
pub const LOCAL_FETCH_BYTES: u64 = 536870912;

/// The BLAKE3 hash of a byte string.
pub uninterp spec fn blake3_of(bytes: Seq<u8>) -> [u8; 32];

/// `blake3::hash`: the 32-byte BLAKE3 hash of `bytes`, a function of `bytes` alone.
#[verifier::external_body]
fn blake3_hash(bytes: &[u8]) -> (hash: [u8; 32])
    ensures
        hash == blake3_of(bytes@),
{
    <[u8; 32]>::from(blake3::hash(bytes))
}

/// The version of a file's content.
pub open spec fn version_of(bytes: Seq<u8>) -> Seq<char> {
    crate::text::hex_text(blake3_of(bytes)@)
}

/// The version of a file's content: its hash in hex.
pub fn content_version(bytes: &[u8]) -> (version: String)
    ensures
        version@ == version_of(bytes@),
{
    let hash = blake3_hash(bytes);
    hex(vstd::array::array_as_slice(&hash))
}

/// Check that a file is still what was listed.
pub fn check_local_body(bytes: &[u8], expected_version: &str, expected_size: u64) -> (checked:
    Result<(), IndexError>)
    ensures
        match checked {
            Ok(_) => bytes@.len() == expected_size && version_of(bytes@) == expected_version@,
            Err(e) => (bytes@.len() != expected_size || version_of(bytes@) != expected_version@)
                && e == IndexError::StaleSource,
        },
{
    if bytes.len() as u64 != expected_size {
        return Err(IndexError::StaleSource);
    }
    if !text_eq(content_version(bytes).as_str(), expected_version) {
        return Err(IndexError::StaleSource);
    }
    Ok(())
}

/// An object to index.
#[derive(Debug)]
pub struct SourceObject {
    pub key: String,
    pub version: String,
    pub encoded_size: u64,
}

/// Listed files; a file's key is its path.
#[derive(Debug)]
pub struct LocalCorpus {
    pub sources: Vec<SourceObject>,
}

pub open spec fn source_view(source: SourceObject) -> (Seq<char>, Seq<char>, u64) {
    (source.key@, source.version@, source.encoded_size)
}

impl LocalCorpus {
    /// The files in order, as they were listed.
    pub open spec fn listed(&self) -> Seq<(Seq<char>, Seq<char>, u64)> {
        self.sources@.map_values(|source: SourceObject| source_view(source))
    }

    /// Exactly the listed files.
    pub fn from_listing(listing: &[ListedObject]) -> (corpus: LocalCorpus)
        ensures
            corpus.listed() == crate::update::object_views(listing@),
    {
        let mut sources: Vec<SourceObject> = Vec::new();
        let mut i: usize = 0;
        while i < listing.len()
            invariant
                i <= listing.len(),
                sources@.len() == i,
                forall|k: int|
                    0 <= k < i ==> source_view(#[trigger] sources@[k])
                        == crate::update::object_view(listing@[k]),
            decreases listing.len() - i,
        {
            let object = &listing[i];
            sources.push(
                SourceObject {
                    key: object.0.clone(),
                    version: object.1.clone(),
                    encoded_size: object.2,
                },
            );
            i = i + 1;
        }
        let corpus = LocalCorpus { sources };
        assert(corpus.listed() =~= crate::update::object_views(listing@));
        corpus
    }

    /// The listing of the files.
    pub fn listing(&self) -> (listing: Vec<ListedObject>)
        ensures
            crate::update::object_views(listing@) == self.listed(),
    {
        let mut listing: Vec<ListedObject> = Vec::new();
        let mut i: usize = 0;
        while i < self.sources.len()
            invariant
                i <= self.sources.len(),
                listing@.len() == i,
                forall|k: int|
                    0 <= k < i ==> crate::update::object_view(#[trigger] listing@[k])
                        == source_view(self.sources@[k]),
            decreases self.sources.len() - i,
        {
            let source = &self.sources[i];
            listing.push((source.key.clone(), source.version.clone(), source.encoded_size));
            i = i + 1;
        }
        assert(crate::update::object_views(listing@) =~= self.listed());
        listing
    }
}

/// Reads candidates from local files.
#[derive(Debug, Clone, Copy, PartialEq, Eq, Structural)]
pub struct LocalFetcher {
    pub concurrency: usize,
}

impl LocalFetcher {
    pub fn new(concurrency: usize) -> (fetcher: Result<LocalFetcher, IndexError>)
        ensures
            match fetcher {
                Ok(fetcher) => concurrency > 0 && fetcher.concurrency == concurrency,
                Err(e) => concurrency == 0 && e == IndexError::LocalConcurrency,
            },
    {
        if concurrency == 0 {
            return Err(IndexError::LocalConcurrency);
        }
        Ok(LocalFetcher { concurrency })
    }
}

/// The candidates of one version of a file.
#[derive(Debug)]
pub struct LocalFetchGroup {
    pub key: String,
    pub version: String,
    pub encoded_size: u64,
    pub encoding: SourceEncoding,
    /// Positions of the candidates.
    pub requests: Vec<usize>,
}

/// Two versions of files in order: by key, then by version.
pub open spec fn pair_before(a: (Seq<char>, Seq<char>), b: (Seq<char>, Seq<char>)) -> bool {
    crate::text::text_before(a.0, b.0) || (a.0 == b.0 && crate::text::text_before(a.1, b.1))
}

pub open spec fn document_pair(document: DocAddress) -> (Seq<char>, Seq<char>) {
    (document.source_key@, document.source_version@)
}

pub open spec fn group_pair(group: LocalFetchGroup) -> (Seq<char>, Seq<char>) {
    (group.key@, group.version@)
}

/// The positions, among the first `n` candidates, of those of one version of a file.
pub open spec fn positions(
    documents: Seq<DocAddress>,
    pair: (Seq<char>, Seq<char>),
    n: int,
) -> Seq<usize>
    decreases n,
{
    if n <= 0 {
        Seq::empty()
    } else {
        let before = positions(documents, pair, n - 1);
        if document_pair(documents[n - 1]) == pair {
            before.push((n - 1) as usize)
        } else {
            before
        }
    }
}

/// The group holds all of the first `n` candidates of its version of a file, and says of the file
/// what they do.
pub open spec fn group_holds(
    group: LocalFetchGroup,
    documents: Seq<DocAddress>,
    n: int,
) -> bool {
    &&& group.requests@ == positions(documents, group_pair(group), n)
    &&& group.requests@.len() > 0
    &&& forall|i: int|
        0 <= i < n && document_pair(#[trigger] documents[i]) == group_pair(group)
            ==> documents[i].encoded_size == group.encoded_size && documents[i].encoding
            == group.encoding
}

/// The groups hold the first `n` candidates, in order of key and version.
pub open spec fn groups_hold(
    groups: Seq<LocalFetchGroup>,
    documents: Seq<DocAddress>,
    n: int,
) -> bool {
    &&& forall|a: int, b: int|
        0 <= a < b < groups.len() ==> pair_before(
            group_pair(#[trigger] groups[a]),
            group_pair(#[trigger] groups[b]),
        )
    &&& forall|g: int| 0 <= g < groups.len() ==> group_holds(#[trigger] groups[g], documents, n)
    &&& forall|i: int| 0 <= i < n ==> has_group(groups, document_pair(#[trigger] documents[i]))
}

pub open spec fn has_group(groups: Seq<LocalFetchGroup>, pair: (Seq<char>, Seq<char>)) -> bool {
    exists|g: int| 0 <= g < groups.len() && group_pair(#[trigger] groups[g]) == pair
}

/// Two candidates of one version of a file say different things of it.
pub open spec fn disagree(documents: Seq<DocAddress>, i: int, j: int) -> bool {
    document_pair(documents[i]) == document_pair(documents[j]) && (documents[i].encoded_size
        != documents[j].encoded_size || documents[i].encoding != documents[j].encoding)
}

proof fn lemma_pairs_total(a: (Seq<char>, Seq<char>), b: (Seq<char>, Seq<char>))
    ensures
        pair_before(a, b) || pair_before(b, a) || a == b,
{
    crate::text::lemma_before_total(crate::text::utf8(a.0), crate::text::utf8(b.0));
    crate::text::lemma_before_total(crate::text::utf8(a.1), crate::text::utf8(b.1));
    if crate::text::utf8(a.0) == crate::text::utf8(b.0) {
        crate::text::lemma_utf8_injective(a.0, b.0);
    }
    if crate::text::utf8(a.1) == crate::text::utf8(b.1) {
        crate::text::lemma_utf8_injective(a.1, b.1);
    }
}

proof fn lemma_pairs_transitive(
    a: (Seq<char>, Seq<char>),
    b: (Seq<char>, Seq<char>),
    c: (Seq<char>, Seq<char>),
)
    requires
        pair_before(a, b),
        pair_before(b, c),
    ensures
        pair_before(a, c),
{
    if crate::text::text_before(a.0, b.0) && crate::text::text_before(b.0, c.0) {
        crate::text::lemma_before_transitive(
            crate::text::utf8(a.0),
            crate::text::utf8(b.0),
            crate::text::utf8(c.0),
        );
    }
    if a.0 == b.0 && b.0 == c.0 && crate::text::text_before(a.1, b.1) && crate::text::text_before(
        b.1,
        c.1,
    ) {
        crate::text::lemma_before_transitive(
            crate::text::utf8(a.1),
            crate::text::utf8(b.1),
            crate::text::utf8(c.1),
        );
    }
}

proof fn lemma_pairs_irreflexive(a: (Seq<char>, Seq<char>))
    ensures
        !pair_before(a, a),
{
    crate::text::lemma_before_irreflexive(crate::text::utf8(a.0));
    crate::text::lemma_before_irreflexive(crate::text::utf8(a.1));
}

fn precedes(group: &LocalFetchGroup, document: &DocAddress) -> (before: bool)
    ensures
        before == pair_before(group_pair(*group), document_pair(*document)),
{
    text_less(group.key.as_str(), document.source_key.as_str()) || (text_eq(
        group.key.as_str(),
        document.source_key.as_str(),
    ) && text_less(group.version.as_str(), document.source_version.as_str()))
}

fn matches_group(group: &LocalFetchGroup, document: &DocAddress) -> (same: bool)
    ensures
        same == (group_pair(*group) == document_pair(*document)),
{
    text_eq(group.key.as_str(), document.source_key.as_str()) && text_eq(
        group.version.as_str(),
        document.source_version.as_str(),
    )
}

proof fn lemma_positions_none(documents: Seq<DocAddress>, pair: (Seq<char>, Seq<char>), n: int)
    requires
        0 <= n <= documents.len(),
        forall|i: int| 0 <= i < n ==> document_pair(#[trigger] documents[i]) != pair,
    ensures
        positions(documents, pair, n).len() == 0,
    decreases n,
{
    if n > 0 {
        lemma_positions_none(documents, pair, n - 1);
        assert(document_pair(documents[n - 1]) != pair);
    }
}

proof fn lemma_positions_some(
    documents: Seq<DocAddress>,
    pair: (Seq<char>, Seq<char>),
    n: int,
) -> (i: int)
    requires
        0 <= n <= documents.len(),
        positions(documents, pair, n).len() > 0,
    ensures
        0 <= i < n,
        document_pair(documents[i]) == pair,
    decreases n,
{
    if document_pair(documents[n - 1]) == pair {
        n - 1
    } else {
        lemma_positions_some(documents, pair, n - 1)
    }
}

/// A group that holds the first `i` candidates holds one more that is not of its version.
proof fn lemma_group_kept(group: LocalFetchGroup, documents: Seq<DocAddress>, i: int)
    requires
        0 <= i < documents.len(),
        group_holds(group, documents, i),
        group_pair(group) != document_pair(documents[i]),
    ensures
        group_holds(group, documents, i + 1),
{
}

/// Add candidate `i` to the group at `at`.
fn add_to_group(groups: &mut Vec<LocalFetchGroup>, at: usize, documents: &[DocAddress], i: usize)
    requires
        i < documents@.len(),
        at < old(groups)@.len(),
        groups_hold(old(groups)@, documents@, i as int),
        group_pair(old(groups)@[at as int]) == document_pair(documents@[i as int]),
        old(groups)@[at as int].encoded_size == documents@[i as int].encoded_size,
        old(groups)@[at as int].encoding == documents@[i as int].encoding,
    ensures
        groups_hold(final(groups)@, documents@, i + 1),
{
    let ghost before = groups@;
    let mut group = groups.remove(at);
    group.requests.push(i);
    groups.insert(at, group);
    proof {
        let after = groups@;
        assert(after.len() == before.len());
        assert forall|g: int| 0 <= g < after.len() implies group_pair(#[trigger] after[g])
            == group_pair(before[g]) by {}
        assert forall|g: int| 0 <= g < after.len() implies group_holds(
            #[trigger] after[g],
            documents@,
            i + 1,
        ) by {
            if g == at {
                assert(group_holds(before[g], documents@, i as int));
            } else {
                assert(after[g] == before[g]);
                lemma_pairs_irreflexive(group_pair(before[at as int]));
                if g < at {
                    assert(pair_before(group_pair(before[g]), group_pair(before[at as int])));
                } else {
                    assert(pair_before(group_pair(before[at as int]), group_pair(before[g])));
                }
                lemma_group_kept(before[g], documents@, i as int);
            }
        }
        assert forall|k: int| 0 <= k < i + 1 implies has_group(
            after,
            document_pair(#[trigger] documents@[k]),
        ) by {
            if k < i {
                assert(has_group(before, document_pair(documents@[k])));
                let g = choose|g: int|
                    0 <= g < before.len() && group_pair(#[trigger] before[g]) == document_pair(
                        documents@[k],
                    );
                assert(group_pair(after[g]) == document_pair(documents@[k]));
            } else {
                assert(group_pair(after[at as int]) == document_pair(documents@[k]));
            }
        }
        assert forall|a: int, b: int| 0 <= a < b < after.len() implies pair_before(
            group_pair(#[trigger] after[a]),
            group_pair(#[trigger] after[b]),
        ) by {
            assert(pair_before(group_pair(before[a]), group_pair(before[b])));
        }
    }
}

/// Make a group for candidate `i`, before the group at `at`.
fn insert_group(groups: &mut Vec<LocalFetchGroup>, at: usize, documents: &[DocAddress], i: usize)
    requires
        i < documents@.len(),
        at <= old(groups)@.len(),
        groups_hold(old(groups)@, documents@, i as int),
        forall|k: int|
            0 <= k < at ==> pair_before(
                group_pair(#[trigger] old(groups)@[k]),
                document_pair(documents@[i as int]),
            ),
        at < old(groups)@.len() ==> pair_before(
            document_pair(documents@[i as int]),
            group_pair(old(groups)@[at as int]),
        ),
    ensures
        groups_hold(final(groups)@, documents@, i + 1),
{
    let ghost before = groups@;
    let ghost pair = document_pair(documents@[i as int]);
    let document = &documents[i];
    let mut requests: Vec<usize> = Vec::new();
    requests.push(i);
    let group = LocalFetchGroup {
        key: document.source_key.clone(),
        version: document.source_version.clone(),
        encoded_size: document.encoded_size,
        encoding: document.encoding,
        requests,
    };
    let ghost made = group;
    groups.insert(at, group);
    proof {
        let after = groups@;
        assert(after =~= before.insert(at as int, made));
        assert(group_pair(made) == pair);
        lemma_pairs_irreflexive(pair);
        assert forall|k: int| at <= k < before.len() implies pair_before(
            pair,
            group_pair(#[trigger] before[k]),
        ) by {
            if k > at {
                assert(pair_before(group_pair(before[at as int]), group_pair(before[k])));
                lemma_pairs_transitive(pair, group_pair(before[at as int]), group_pair(before[k]));
            }
        }
        assert(!has_group(before, pair)) by {
            assert forall|g: int| 0 <= g < before.len() implies group_pair(#[trigger] before[g])
                != pair by {
                if g < at {
                    assert(pair_before(group_pair(before[g]), pair));
                } else {
                    assert(pair_before(pair, group_pair(before[g])));
                }
            }
        }
        assert forall|k: int| 0 <= k < i implies document_pair(#[trigger] documents@[k])
            != pair by {
            assert(has_group(before, document_pair(documents@[k])));
        }
        lemma_positions_none(documents@, pair, i as int);
        assert(positions(documents@, pair, i + 1) =~= seq![i]);
        assert(made.requests@ =~= seq![i]);
        assert(group_holds(made, documents@, i + 1));
        assert forall|g: int| 0 <= g < after.len() implies group_holds(
            #[trigger] after[g],
            documents@,
            i + 1,
        ) by {
            if g != at {
                let from = if g < at { g } else { g - 1 };
                assert(after[g] == before[from]);
                assert(group_pair(before[from]) != pair);
                lemma_group_kept(before[from], documents@, i as int);
            }
        }
        assert forall|k: int| 0 <= k < i + 1 implies has_group(
            after,
            document_pair(#[trigger] documents@[k]),
        ) by {
            if k < i {
                assert(has_group(before, document_pair(documents@[k])));
                let g = choose|g: int|
                    0 <= g < before.len() && group_pair(#[trigger] before[g]) == document_pair(
                        documents@[k],
                    );
                let to = if g < at { g } else { g + 1 };
                assert(after[to] == before[g]);
                assert(group_pair(after[to]) == document_pair(documents@[k]));
            } else {
                assert(group_pair(after[at as int]) == document_pair(documents@[k]));
            }
        }
        assert forall|a: int, b: int| 0 <= a < b < after.len() implies pair_before(
            group_pair(#[trigger] after[a]),
            group_pair(#[trigger] after[b]),
        ) by {
            let sa = if a < at { a } else { a - 1 };
            let sb = if b < at { b } else { b - 1 };
            if a == at {
                assert(after[b] == before[sb]);
            } else if b == at {
                assert(after[a] == before[sa]);
            } else {
                assert(after[a] == before[sa]);
                assert(after[b] == before[sb]);
                assert(pair_before(group_pair(before[sa]), group_pair(before[sb])));
            }
        }
    }
}

/// Group candidates by the version of the file that they come from, in order of key and version.
/// Candidates of one version must agree about the file.
pub fn group_local(documents: &[DocAddress]) -> (groups: Result<Vec<LocalFetchGroup>, IndexError>)
    ensures
        match groups {
            Ok(groups) => groups_hold(groups@, documents@, documents@.len() as int),
            Err(e) => e == IndexError::SourceMetadata && exists|i: int, j: int|
                0 <= i < j < documents@.len() && #[trigger] disagree(documents@, i, j),
        },
{
    let mut groups: Vec<LocalFetchGroup> = Vec::new();
    let mut i: usize = 0;
    while i < documents.len()
        invariant
            i <= documents.len(),
            groups_hold(groups@, documents@, i as int),
        decreases documents.len() - i,
    {
        let document = &documents[i];
        let mut at: usize = 0;
        while at < groups.len() && precedes(&groups[at], document)
            invariant
                at <= groups.len(),
                forall|k: int|
                    0 <= k < at ==> pair_before(
                        group_pair(#[trigger] groups@[k]),
                        document_pair(*document),
                    ),
            decreases groups.len() - at,
        {
            at = at + 1;
        }
        if at < groups.len() && matches_group(&groups[at], document) {
            let group = &groups[at];
            if group.encoded_size != document.encoded_size || group.encoding
                != document.encoding {
                proof {
                    assert(group_holds(groups@[at as int], documents@, i as int));
                    let j = lemma_positions_some(
                        documents@,
                        group_pair(groups@[at as int]),
                        i as int,
                    );
                    assert(document_pair(documents@[j]) == group_pair(groups@[at as int]));
                    assert(disagree(documents@, j, i as int));
                }
                return Err(IndexError::SourceMetadata);
            }
            add_to_group(&mut groups, at, documents, i);
        } else {
            proof {
                if at < groups@.len() {
                    lemma_pairs_total(group_pair(groups@[at as int]), document_pair(*document));
                }
            }
            insert_group(&mut groups, at, documents, i);
        }
        i = i + 1;
    }
    Ok(groups)
}

/// Every file is read once, however many candidates come from it, and every candidate gets the
/// file it comes from.
pub proof fn sources_are_read_once(
    groups: Seq<LocalFetchGroup>,
    documents: Seq<DocAddress>,
    i: int,
)
    requires
        groups_hold(groups, documents, documents.len() as int),
        documents.len() <= usize::MAX,
        0 <= i < documents.len(),
    ensures
        forall|a: int, b: int|
            0 <= a < b < groups.len() ==> group_pair(#[trigger] groups[a]) != group_pair(
                #[trigger] groups[b],
            ),
        exists|g: int|
            0 <= g < groups.len() && group_pair(#[trigger] groups[g]) == document_pair(documents[i])
                && groups[g].requests@.contains(i as usize),
{
    assert forall|a: int, b: int| 0 <= a < b < groups.len() implies group_pair(
        #[trigger] groups[a],
    ) != group_pair(#[trigger] groups[b]) by {
        lemma_pairs_irreflexive(group_pair(groups[a]));
    }
    assert(has_group(groups, document_pair(documents[i])));
    let g = choose|g: int|
        0 <= g < groups.len() && group_pair(#[trigger] groups[g]) == document_pair(documents[i]);
    assert(group_holds(groups[g], documents, documents.len() as int));
    lemma_positions_hold(documents, group_pair(groups[g]), documents.len() as int, i);
}

proof fn lemma_positions_hold(
    documents: Seq<DocAddress>,
    pair: (Seq<char>, Seq<char>),
    n: int,
    i: int,
)
    requires
        0 <= i < n <= documents.len(),
        n <= usize::MAX,
        document_pair(documents[i]) == pair,
    ensures
        positions(documents, pair, n).contains(i as usize),
    decreases n,
{
    let here = positions(documents, pair, n);
    if i == n - 1 {
        assert(here.last() == i as usize);
    } else {
        lemma_positions_hold(documents, pair, n - 1, i);
        let before = positions(documents, pair, n - 1);
        let k = choose|k: int| 0 <= k < before.len() && before[k] == i as usize;
        assert(here[k] == i as usize);
    }
}

/// How many of the first `n` groups are files that need no decoding.
pub open spec fn raw_groups(groups: Seq<LocalFetchGroup>, n: int) -> nat
    decreases n,
{
    if n <= 0 {
        0
    } else {
        raw_groups(groups, n - 1) + if groups[n - 1].encoding == SourceEncoding::Raw {
            1nat
        } else {
            0
        }
    }
}

/// How many workers read `raw` files: no more than there are files or the machine has to offer.
pub open spec fn worker_count(available: int, raw: int) -> int {
    if available < raw {
        available
    } else {
        raw
    }
}

/// Whether a group is read by a worker: a file that needs no decoding and fits the worker's share.
pub open spec fn read_in_parallel(group: LocalFetchGroup, workers: int) -> bool {
    workers > 1 && group.encoding == SourceEncoding::Raw && group.encoded_size <= LOCAL_FETCH_BYTES
        as int / workers
}

/// How many workers read the groups, and for each group whether a worker reads it or it is read
/// after them.
pub fn plan_local(groups: &[LocalFetchGroup], available: usize) -> (plan: (usize, Vec<bool>))
    requires
        available > 0,
    ensures
        plan.0 == worker_count(
            available as int,
            raw_groups(groups@, groups@.len() as int) as int,
        ),
        plan.1@ == groups@.map_values(
            |group: LocalFetchGroup| read_in_parallel(group, plan.0 as int),
        ),
{
    let n: usize = groups.len();
    let mut raw: usize = 0;
    let mut i: usize = 0;
    while i < n
        invariant
            i <= n,
            n == groups@.len(),
            raw == raw_groups(groups@, i as int),
            raw <= i,
        decreases n - i,
    {
        if groups[i].encoding == SourceEncoding::Raw {
            raw = raw + 1;
        }
        i = i + 1;
    }
    let workers: usize = if available < raw {
        available
    } else {
        raw
    };
    let share: u64 = if workers > 1 {
        LOCAL_FETCH_BYTES / workers as u64
    } else {
        LOCAL_FETCH_BYTES
    };
    let mut parallel: Vec<bool> = Vec::new();
    let mut k: usize = 0;
    while k < n
        invariant
            k <= n,
            n == groups@.len(),
            share == (if workers > 1 {
                LOCAL_FETCH_BYTES as int / workers as int
            } else {
                LOCAL_FETCH_BYTES as int
            }),
            parallel@.len() == k,
            forall|j: int|
                0 <= j < k ==> #[trigger] parallel@[j] == read_in_parallel(
                    groups@[j],
                    workers as int,
                ),
        decreases n - k,
    {
        let group = &groups[k];
        parallel.push(
            workers > 1 && group.encoding == SourceEncoding::Raw && group.encoded_size <= share,
        );
        k = k + 1;
    }
    assert(parallel@ =~= groups@.map_values(
        |group: LocalFetchGroup| read_in_parallel(group, workers as int),
    ));
    (workers, parallel)
}

/// A listing survives being turned into files and back.
pub proof fn listings_round_trip(corpus: LocalCorpus, listing: Seq<ListedObject>, again: Seq<ListedObject>)
    requires
        corpus.listed() == crate::update::object_views(listing),
        crate::update::object_views(again) == corpus.listed(),
    ensures
        crate::update::object_views(again) == crate::update::object_views(listing),
{
}

/// Files are read side by side as far as memory allows: only such as need no decoding, and only where
/// as many of that size as there are workers fit into the budget together; with one worker, none.
pub proof fn parallel_reads_keep_to_the_budget(group: LocalFetchGroup, workers: int)
    requires
        workers > 0,
    ensures
        read_in_parallel(group, workers) <==> workers > 1 && group.encoding == SourceEncoding::Raw
            && group.encoded_size * workers <= 536870912,
{
    let size = group.encoded_size as int;
    assert(size <= 536870912int / workers <==> size * workers <= 536870912) by (nonlinear_arith)
        requires
            workers > 0,
            size >= 0,
    ;
}

/// There are as many workers as raw files, but no more than are available.
pub proof fn workers_are_raw_files(groups: Seq<LocalFetchGroup>, n: int, available: int)
    requires
        0 <= n <= groups.len(),
    ensures
        ({
            let raw = groups.take(n).filter(
                |group: LocalFetchGroup| group.encoding == SourceEncoding::Raw,
            ).len();
            &&& raw_groups(groups, n) == raw
            &&& worker_count(available, raw as int) <= available
            &&& worker_count(available, raw as int) <= raw
            &&& worker_count(available, raw as int) == available || worker_count(
                available,
                raw as int,
            ) == raw
        }),
    decreases n,
{
    reveal(Seq::filter);
    if n > 0 {
        workers_are_raw_files(groups, n - 1, available);
        assert(groups.take(n).drop_last() =~= groups.take(n - 1));
    }
}

/// A group asks for the documents of its source, and for no others.
pub proof fn groups_ask_for_their_source(
    documents: Seq<DocAddress>,
    pair: (Seq<char>, Seq<char>),
    n: int,
    i: int,
)
    requires
        0 <= n <= documents.len() <= usize::MAX,
        0 <= i <= usize::MAX,
    ensures
        positions(documents, pair, n).contains(i as usize) <==> i < n && documents[i].source_key@
            == pair.0 && documents[i].source_version@ == pair.1,
    decreases n,
{
    if n > 0 {
        groups_ask_for_their_source(documents, pair, n - 1, i);
        let before = positions(documents, pair, n - 1);
        let all = positions(documents, pair, n);
        if before.contains(i as usize) {
            let k = choose|k: int| 0 <= k < before.len() && before[k] == i as usize;
            assert(all[k] == i as usize);
        }
        if all.contains(i as usize) {
            let k = choose|k: int| 0 <= k < all.len() && all[k] == i as usize;
            if k < before.len() {
                assert(before[k] == i as usize);
            }
        }
        if i == n - 1 && document_pair(documents[n - 1]) == pair {
            assert(all[all.len() - 1] == i as usize);
        }
    }
}

} // verus!
