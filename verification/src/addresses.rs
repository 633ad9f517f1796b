//! Candidate documents: from selected ids to addresses, and from addresses back to pack requests.

use std::collections::BTreeMap;
use vstd::prelude::*;

use crate::error::IndexError;
use crate::eval::eval;
use crate::eval::NoExpansion;
use crate::eval::Resolved;
use crate::eval::Selection;
use crate::format::DeadSet;
use crate::format::SegmentTables;
use crate::format::SourceEncoding;
use crate::ids::contains_id;
use crate::ids::sort_dedup;
use crate::maps::entries;
use crate::pack::PackRequest;
use crate::pack::PackSlice;
use crate::posting_block::decode_posting_block;
use crate::text::text_eq;
use crate::text::text_less;

verus! {

/// How many addresses are gathered at a time when all of them are wanted.
pub const CANDIDATE_DOCS_BATCH: usize = 16384;

/// Where a document lies in an opened index.
#[derive(Debug, Clone, Copy, PartialEq, Eq, Structural)]
pub struct IndexAddress {
    pub segment: u32,
    pub document: u32,
}

/// A candidate document.
#[derive(Debug)]
pub struct DocAddress {
    pub display_key: String,
    pub source_key: String,
    pub source_version: String,
    pub encoded_size: u64,
    pub encoding: SourceEncoding,
    pub member_path: Option<String>,
    pub index: Option<IndexAddress>,
}

/// The posting blocks decoded from what was fetched for `needed`, entry by entry, or the first
/// error.
pub open spec fn decoded_from(
    list: Seq<(u64, u32)>,
    fetched: Seq<Vec<u8>>,
    doc_count: u32,
    k: int,
) -> Option<IndexError>
    decreases list.len() - k,
{
    if k >= list.len() {
        None
    } else {
        match crate::posting_block::posting_ids(fetched[k]@, list[k].1, doc_count) {
            Err(e) => Some(e),
            Ok(_) => decoded_from(list, fetched, doc_count, k + 1),
        }
    }
}

/// The blocks hold what each entry's fetched bytes decode to, and nothing else.
pub open spec fn holds_decoded(
    blocks: Map<u64, Vec<u32>>,
    list: Seq<(u64, u32)>,
    fetched: Seq<Vec<u8>>,
    doc_count: u32,
) -> bool {
    &&& forall|k: int|
        0 <= k < list.len() ==> blocks.contains_key((#[trigger] list[k]).0)
            && crate::posting_block::posting_ids(fetched[k]@, list[k].1, doc_count) == Ok::<
            Seq<u32>,
            IndexError,
        >(blocks[list[k].0]@)
    &&& forall|offset: u64| #[trigger]
        blocks.contains_key(offset) ==> exists|k: int|
            0 <= k < list.len() && (#[trigger] list[k]).0 == offset
}

/// Decode the posting blocks that were fetched for `needed`, in order of offset.
pub fn decode_blocks(
    needed: &BTreeMap<u64, u32>,
    fetched: &[Vec<u8>],
    doc_count: u32,
) -> (blocks: Result<BTreeMap<u64, Vec<u32>>, IndexError>)
    ensures
        exists|list: Seq<(u64, u32)>| #[trigger]
            crate::maps::lists_entries(list, needed@) && match blocks {
                Ok(blocks) => fetched@.len() == list.len() && holds_decoded(
                    blocks@,
                    list,
                    fetched@,
                    doc_count,
                ),
                Err(e) => if fetched@.len() != list.len() {
                    e == (IndexError::PostingsFetchCount {
                        fetched: fetched@.len() as usize,
                        asked: list.len() as usize,
                    })
                } else {
                    decoded_from(list, fetched@, doc_count, 0) == Some(e)
                },
            },
{
    broadcast use vstd::std_specs::btree::group_btree_axioms;

    let list = entries(needed);
    assert(crate::maps::lists_entries(list@, needed@));
    if fetched.len() != list.len() {
        return Err(
            IndexError::PostingsFetchCount { fetched: fetched.len(), asked: list.len() },
        );
    }
    let mut blocks: BTreeMap<u64, Vec<u32>> = BTreeMap::new();
    let mut k: usize = 0;
    while k < list.len()
        invariant
            k <= list.len(),
            fetched.len() == list.len(),
            crate::maps::lists_entries(list@, needed@),
            decoded_from(list@, fetched@, doc_count, 0) == decoded_from(
                list@,
                fetched@,
                doc_count,
                k as int,
            ),
            holds_decoded(blocks@, list@.take(k as int), fetched@, doc_count),
        decreases list.len() - k,
    {
        let (offset, count): (u64, u32) = list[k];
        match decode_posting_block(fetched[k].as_slice(), count, doc_count) {
            Ok(ids) => {
                let ghost before = blocks@;
                blocks.insert(offset, ids);
                proof {
                    let seen = list@.take(k as int);
                    let more = list@.take(k + 1);
                    assert forall|j: int| 0 <= j < more.len() implies blocks@.contains_key(
                        (#[trigger] more[j]).0,
                    ) && crate::posting_block::posting_ids(fetched@[j]@, more[j].1, doc_count)
                        == Ok::<Seq<u32>, IndexError>(blocks@[more[j].0]@) by {
                        if j < k {
                            assert(seen[j] == more[j]);
                            assert(list@[j].0 < list@[k as int].0);
                        }
                    }
                    assert forall|at: u64| #[trigger]
                        blocks@.contains_key(at) implies exists|j: int|
                        0 <= j < more.len() && (#[trigger] more[j]).0 == at by {
                        if at == offset {
                            assert(more[k as int].0 == at);
                        } else {
                            assert(before.contains_key(at));
                            let j = choose|j: int|
                                0 <= j < seen.len() && (#[trigger] seen[j]).0 == at;
                            assert(more[j].0 == at);
                        }
                    }
                }
            },
            Err(e) => {
                return Err(e);
            },
        }
        k = k + 1;
    }
    assert(list@.take(k as int) =~= list@);
    Ok(blocks)
}

/// Every posting list is ascending.
pub open spec fn blocks_ascend(blocks: Map<u64, Vec<u32>>) -> bool {
    forall|offset: u64| #[trigger]
        blocks.contains_key(offset) ==> crate::ids::ascending(blocks[offset]@)
}

/// Every posting names one of `doc_count` documents.
pub open spec fn blocks_bounded(blocks: Map<u64, Vec<u32>>, doc_count: u32) -> bool {
    forall|offset: u64, k: int|
        blocks.contains_key(offset) && 0 <= k < blocks[offset]@.len() ==> (
        #[trigger] blocks[offset]@[k]) < doc_count
}

/// Decoded posting blocks are ascending and name documents of the segment only.
pub proof fn decoded_blocks_are_valid(
    blocks: Map<u64, Vec<u32>>,
    list: Seq<(u64, u32)>,
    fetched: Seq<Vec<u8>>,
    doc_count: u32,
)
    requires
        holds_decoded(blocks, list, fetched, doc_count),
    ensures
        blocks_ascend(blocks),
        blocks_bounded(blocks, doc_count),
{
    assert forall|offset: u64| #[trigger] blocks.contains_key(offset) implies crate::ids::ascending(
        blocks[offset]@,
    ) && forall|k: int| 0 <= k < blocks[offset]@.len() ==> (#[trigger] blocks[offset]@[k])
        < doc_count by {
        let k = choose|k: int| 0 <= k < list.len() && (#[trigger] list[k]).0 == offset;
        crate::posting_block::posting_block_decode_ascending(fetched[k]@, list[k].1, doc_count);
    }
}

/// Every id is below `n`.
pub open spec fn all_below(ids: Set<u32>, n: u32) -> bool {
    forall|id: u32| #[trigger] ids.contains(id) ==> id < n
}

proof fn lemma_select_bounded(plan: crate::eval::Plan, blocks: Map<u64, Vec<u32>>, n: u32)
    requires
        blocks_bounded(blocks, n),
        crate::eval::docs_accepted(plan, crate::eval::below(n)),
    ensures
        crate::eval::select(plan, blocks, NoExpansion) matches Ok(Some(ids)) ==> all_below(ids, n),
    decreases plan, 0nat,
{
    match plan {
        crate::eval::Plan::And(children) => lemma_and_bounded(children, 0, None, blocks, n),
        crate::eval::Plan::Or(children) => lemma_or_bounded(
            children,
            0,
            Set::empty(),
            blocks,
            n,
        ),
        crate::eval::Plan::Gram { offset, .. } => {
            if blocks.contains_key(offset) {
                let ids = crate::eval::widened(blocks[offset]@, NoExpansion);
                assert forall|id: u32| #[trigger] ids.contains(id) implies id < n by {
                    let k = choose|k: int|
                        0 <= k < blocks[offset]@.len() && crate::eval::Expand::range(
                            &NoExpansion,
                            #[trigger] blocks[offset]@[k],
                        ).0 <= id <= crate::eval::Expand::range(
                            &NoExpansion,
                            blocks[offset]@[k],
                        ).1;
                    assert(blocks[offset]@[k] == id);
                }
            }
        },
        _ => {},
    }
}

proof fn lemma_and_bounded(
    children: Seq<crate::eval::Plan>,
    i: nat,
    acc: Option<Set<u32>>,
    blocks: Map<u64, Vec<u32>>,
    n: u32,
)
    requires
        blocks_bounded(blocks, n),
        crate::eval::all_docs_accepted(children, crate::eval::below(n)),
        acc matches Some(ids) ==> all_below(ids, n),
    ensures
        crate::eval::and_select(children, i, acc, blocks, NoExpansion) matches Ok(Some(ids))
            ==> all_below(ids, n),
    decreases children, children.len() - i,
{
    if i < children.len() {
        lemma_select_bounded(children[i as int], blocks, n);
        match crate::eval::select(children[i as int], blocks, NoExpansion) {
            Err(_) => {},
            Ok(None) => lemma_and_bounded(children, i + 1, acc, blocks, n),
            Ok(Some(ids)) => {
                let both = match acc {
                    None => ids,
                    Some(seen) => seen.intersect(ids),
                };
                lemma_and_bounded(children, i + 1, Some(both), blocks, n);
            },
        }
    }
}

proof fn lemma_or_bounded(
    children: Seq<crate::eval::Plan>,
    i: nat,
    acc: Set<u32>,
    blocks: Map<u64, Vec<u32>>,
    n: u32,
)
    requires
        blocks_bounded(blocks, n),
        crate::eval::all_docs_accepted(children, crate::eval::below(n)),
        all_below(acc, n),
    ensures
        crate::eval::or_select(children, i, acc, blocks, NoExpansion) matches Ok(Some(ids))
            ==> all_below(ids, n),
    decreases children, children.len() - i,
{
    if i < children.len() {
        lemma_select_bounded(children[i as int], blocks, n);
        if let Ok(Some(ids)) = crate::eval::select(children[i as int], blocks, NoExpansion) {
            lemma_or_bounded(children, i + 1, acc.union(ids), blocks, n);
        }
    }
}

/// Whatever a query selects is a document of the segment: its single-document terms and the
/// postings fetched for it name no other.
pub proof fn selected_documents_exist(
    plan: crate::eval::Plan,
    blocks: Map<u64, Vec<u32>>,
    doc_count: u32,
    id: u32,
)
    requires
        blocks_bounded(blocks, doc_count),
        crate::eval::docs_accepted(plan, crate::eval::below(doc_count)),
        crate::eval::select(plan, blocks, NoExpansion) matches Ok(choice) && selected(
            choice,
            doc_count,
            id,
        ),
    ensures
        id < doc_count,
{
    lemma_select_bounded(plan, blocks, doc_count);
}

/// What a query selects of `doc_count` documents.
pub open spec fn selected(choice: Option<Set<u32>>, doc_count: u32, id: u32) -> bool {
    match choice {
        None => id < doc_count,
        Some(ids) => ids.contains(id),
    }
}

/// The ids that a resolved query selects of `doc_count` documents, ascending.
pub fn selected_ids(
    resolved: &Resolved,
    blocks: &BTreeMap<u64, Vec<u32>>,
    doc_count: u32,
) -> (ids: Result<Vec<u32>, IndexError>)
    requires
        blocks_ascend(blocks@),
    ensures
        match ids {
            Ok(ids) => crate::ids::ascending(ids@) && crate::eval::select(
                resolved.plan(),
                blocks@,
                NoExpansion,
            ) is Ok && forall|id: u32| #[trigger]
                ids@.contains(id) <==> selected(
                    crate::eval::select(resolved.plan(), blocks@, NoExpansion)->Ok_0,
                    doc_count,
                    id,
                ),
            Err(e) => crate::eval::select(resolved.plan(), blocks@, NoExpansion) == Err::<
                Option<Set<u32>>,
                IndexError,
            >(e),
        },
{
    proof {
        crate::candidate::lemma_docs_accepted_all(
            resolved.plan(),
            |id: u32| crate::eval::Expand::accepts(&NoExpansion, id),
        );
    }
    match eval(resolved, blocks, &NoExpansion) {
        Ok(Selection::Ids(ids)) => Ok(ids),
        Ok(Selection::All) => {
            let mut all: Vec<u32> = Vec::new();
            let mut id: u32 = 0;
            while id < doc_count
                invariant
                    id <= doc_count,
                    all@.len() == id,
                    forall|k: int| 0 <= k < id ==> #[trigger] all@[k] == k,
                decreases doc_count - id,
            {
                all.push(id);
                id = id + 1;
            }
            assert forall|x: u32| #[trigger] all@.contains(x) <==> x < doc_count by {
                if x < doc_count {
                    assert(all@[x as int] == x);
                }
            }
            Ok(all)
        },
        Err(e) => Err(e),
    }
}

/// The ids of documents that are not dead.
pub open spec fn is_live(dead: Seq<u32>) -> spec_fn(u32) -> bool {
    |id: u32| !dead.contains(id)
}

/// The ids that are not dead, in their order.
pub fn live_ids(ids: &[u32], dead: &DeadSet) -> (live: Vec<u32>)
    requires
        dead.ordered(),
    ensures
        live@ == ids@.filter(is_live(dead.documents@)),
{
    let ghost keep = is_live(dead.documents@);
    let mut live: Vec<u32> = Vec::new();
    let mut i: usize = 0;
    assert(ids@.take(0).filter(keep) =~= Seq::<u32>::empty()) by {
        reveal(Seq::filter);
    }
    while i < ids.len()
        invariant
            i <= ids.len(),
            dead.ordered(),
            keep == is_live(dead.documents@),
            live@ == ids@.take(i as int).filter(keep),
        decreases ids.len() - i,
    {
        proof {
            reveal(Seq::filter);
            assert(ids@.take(i + 1).drop_last() =~= ids@.take(i as int));
            assert(ids@.take(i + 1).last() == ids@[i as int]);
        }
        if !contains_id(dead.documents.as_slice(), ids[i]) {
            live.push(ids[i]);
        }
        i = i + 1;
    }
    assert(ids@.take(i as int) =~= ids@);
    live
}

/// The address of document `id` of segment `segment`.
pub open spec fn address_of(segment: u32, tables: SegmentTables, id: u32) -> DocAddress {
    let document = tables.documents@[id as int];
    let source = tables.sources@[document.source_id as int];
    DocAddress {
        display_key: document.display_key,
        source_key: source.key,
        source_version: source.version,
        encoded_size: source.encoded_size,
        encoding: source.encoding,
        member_path: document.member_path,
        index: Some(IndexAddress { segment, document: id }),
    }
}

fn make_address(segment: u32, tables: &SegmentTables, id: u32) -> (address: DocAddress)
    requires
        id < tables.documents@.len(),
        tables.documents@[id as int].source_id < tables.sources@.len(),
    ensures
        address == address_of(segment, *tables, id),
{
    let document = &tables.documents[id as usize];
    let source = &tables.sources[document.source_id as usize];
    let member_path: Option<String> = match &document.member_path {
        Some(path) => Some(path.clone()),
        None => None,
    };
    DocAddress {
        display_key: document.display_key.clone(),
        source_key: source.key.clone(),
        source_version: source.version.clone(),
        encoded_size: source.encoded_size,
        encoding: source.encoding,
        member_path,
        index: Some(IndexAddress { segment, document: id }),
    }
}

/// The end of the batch that starts at `start`.
pub open spec fn batch_stop(len: int, start: int, batch_size: int) -> int {
    if len - start <= batch_size {
        len
    } else {
        start + batch_size
    }
}

/// The addresses of the batch of live ids that starts at `start`.
pub open spec fn batch_of(
    segment: u32,
    tables: SegmentTables,
    live: Seq<u32>,
    start: int,
    batch_size: int,
) -> Seq<DocAddress> {
    live.subrange(start, batch_stop(live.len() as int, start, batch_size)).map_values(
        |id: u32| address_of(segment, tables, id),
    )
}

/// The addresses of the batch of live ids that starts at `start`: `batch_size` of them, or as
/// many as remain.
pub fn candidate_batch(
    segment: u32,
    tables: &SegmentTables,
    live: &[u32],
    start: usize,
    batch_size: usize,
) -> (batch: Result<Vec<DocAddress>, IndexError>)
    requires
        crate::format::table_error(*tables) is None,
        start <= live@.len(),
        forall|k: int| 0 <= k < live@.len() ==> (#[trigger] live@[k]) < tables.documents@.len(),
    ensures
        match batch {
            Ok(batch) => batch_size > 0 && batch@ == batch_of(
                segment,
                *tables,
                live@,
                start as int,
                batch_size as int,
            ),
            Err(e) => batch_size == 0 && e == IndexError::BatchSize,
        },
{
    if batch_size == 0 {
        return Err(IndexError::BatchSize);
    }
    let stop: usize = if live.len() - start <= batch_size {
        live.len()
    } else {
        start + batch_size
    };
    let mut batch: Vec<DocAddress> = Vec::new();
    let mut i: usize = start;
    while i < stop
        invariant
            start <= i <= stop <= live@.len(),
            crate::format::table_error(*tables) is None,
            forall|k: int|
                0 <= k < live@.len() ==> (#[trigger] live@[k]) < tables.documents@.len(),
            batch@.len() == i - start,
            forall|k: int|
                0 <= k < i - start ==> #[trigger] batch@[k] == address_of(
                    segment,
                    *tables,
                    live@[start + k],
                ),
        decreases stop - i,
    {
        proof {
            assert(live@[i as int] < tables.documents@.len());
            crate::format::valid_documents_owned(*tables, live@[i as int] as int);
        }
        batch.push(make_address(segment, tables, live[i]));
        i = i + 1;
    }
    assert(batch@ =~= batch_of(segment, *tables, live@, start as int, batch_size as int));
    Ok(batch)
}

/// Taken one after another, the batches hold the address of every live document once, in order.
pub proof fn batches_cover_candidates(
    segment: u32,
    tables: SegmentTables,
    live: Seq<u32>,
    start: int,
    batch_size: int,
)
    requires
        0 <= start <= live.len(),
        batch_size > 0,
    ensures
        batch_of(segment, tables, live, start, batch_size) + live.skip(
            batch_stop(live.len() as int, start, batch_size),
        ).map_values(|id: u32| address_of(segment, tables, id)) == live.skip(start).map_values(
            |id: u32| address_of(segment, tables, id),
        ),
        start < live.len() ==> batch_of(segment, tables, live, start, batch_size).len() > 0,
        batch_of(segment, tables, live, start, batch_size).len() <= batch_size,
{
    let stop = batch_stop(live.len() as int, start, batch_size);
    assert(batch_of(segment, tables, live, start, batch_size) + live.skip(stop).map_values(
        |id: u32| address_of(segment, tables, id),
    ) =~= live.skip(start).map_values(|id: u32| address_of(segment, tables, id)));
}

/// An archive's separator stands at `at`.
pub open spec fn separator_at(text: Seq<char>, at: int) -> bool {
    0 <= at && at + 2 <= text.len() && text[at] == '!' && text[at + 1] == '/'
}

/// `split` is where the first separator stands.
pub open spec fn first_separator(text: Seq<char>, split: int) -> bool {
    separator_at(text, split) && forall|at: int| 0 <= at < split ==> !(#[trigger] separator_at(text, at))
}

/// `str::split_once` with the separator `"!/"`: the text before its first occurrence, or nothing
/// where it does not occur.
#[verifier::external_body]
fn before_separator(text: &str) -> (head: Option<&str>)
    ensures
        match head {
            Some(head) => head@.len() <= text@.len() && first_separator(text@, head@.len() as int)
                && head@ == text@.subrange(0, head@.len() as int),
            None => forall|at: int| !(#[trigger] separator_at(text@, at)),
        },
{
    text.split_once("!/").map(|(head, _)| head)
}

/// The part of a key prefix that names sources: up to the first archive separator, or all of it.
pub fn source_prefix(prefix: &str) -> (source: &str)
    ensures
        if exists|at: int| separator_at(prefix@, at) {
            first_separator(prefix@, source@.len() as int) && source@ == prefix@.subrange(
                0,
                source@.len() as int,
            )
        } else {
            source@ == prefix@
        },
{
    match before_separator(prefix) {
        Some(head) => {
            assert(separator_at(prefix@, head@.len() as int));
            head
        },
        None => prefix,
    }
}

/// Whether candidate `i` lies in segment `segment`.
pub open spec fn lies_in(documents: Seq<DocAddress>, segment: u32, i: int) -> bool {
    documents[i].index matches Some(address) && address.segment == segment
}

/// The candidates of one segment, by position and document, in order of position.
pub open spec fn group_of(documents: Seq<DocAddress>, segment: u32, n: int) -> Seq<(usize, u32)>
    decreases n,
{
    if n <= 0 {
        Seq::empty()
    } else {
        let before = group_of(documents, segment, n - 1);
        if lies_in(documents, segment, n - 1) {
            before.push(((n - 1) as usize, documents[n - 1].index->0.document))
        } else {
            before
        }
    }
}

/// The groups are those of the candidates' segments, each once, in order of segment.
pub open spec fn groups_of(groups: Seq<(u32, Vec<(usize, u32)>)>, documents: Seq<DocAddress>) -> bool {
    &&& forall|a: int, b: int|
        0 <= a < b < groups.len() ==> (#[trigger] groups[a]).0 < (#[trigger] groups[b]).0
    &&& forall|g: int|
        0 <= g < groups.len() ==> (#[trigger] groups[g]).1@ == group_of(
            documents,
            groups[g].0,
            documents.len() as int,
        ) && groups[g].1@.len() > 0
    &&& forall|i: int|
        0 <= i < documents.len() ==> (#[trigger] documents[i]).index is Some && exists|g: int|
            0 <= g < groups.len() && (#[trigger] groups[g]).0 == documents[i].index->0.segment
}

proof fn lemma_group_present(documents: Seq<DocAddress>, segment: u32, i: int, n: int)
    requires
        0 <= i < n <= documents.len(),
        lies_in(documents, segment, i),
    ensures
        group_of(documents, segment, n).len() > 0,
    decreases n,
{
    if i < n - 1 {
        lemma_group_present(documents, segment, i, n - 1);
    }
}

/// Group candidates by segment.
pub fn group_addresses(documents: &[DocAddress]) -> (groups: Result<
    Vec<(u32, Vec<(usize, u32)>)>,
    IndexError,
>)
    ensures
        match groups {
            Ok(groups) => groups_of(groups@, documents@),
            Err(e) => e == IndexError::AddressMissing && exists|i: int|
                0 <= i < documents@.len() && (#[trigger] documents@[i]).index is None,
        },
{
    let n: usize = documents.len();
    let mut listed: Vec<u32> = Vec::new();
    let mut i: usize = 0;
    while i < n
        invariant
            i <= n,
            n == documents@.len(),
            listed@.len() == i,
            forall|k: int|
                0 <= k < i ==> (#[trigger] documents@[k]).index is Some
                    && documents@[k].index->0.segment == listed@[k],
        decreases n - i,
    {
        match documents[i].index {
            Some(address) => listed.push(address.segment),
            None => {
                assert(documents@[i as int].index is None);
                return Err(IndexError::AddressMissing);
            },
        }
        i = i + 1;
    }
    let ghost all = listed@;
    let segments = sort_dedup(listed);
    let mut groups: Vec<(u32, Vec<(usize, u32)>)> = Vec::new();
    let mut g: usize = 0;
    while g < segments.len()
        invariant
            g <= segments.len(),
            n == documents@.len(),
            all.len() == n,
            crate::ids::id_set(segments@) == crate::ids::id_set(all),
            crate::ids::ascending(segments@),
            forall|k: int|
                0 <= k < n ==> (#[trigger] documents@[k]).index is Some
                    && documents@[k].index->0.segment == all[k],
            groups@.len() == g,
            forall|k: int| 0 <= k < g ==> (#[trigger] groups@[k]).0 == segments@[k],
            forall|k: int|
                0 <= k < g ==> (#[trigger] groups@[k]).1@ == group_of(
                    documents@,
                    groups@[k].0,
                    n as int,
                ) && groups@[k].1@.len() > 0,
        decreases segments.len() - g,
    {
        let segment: u32 = segments[g];
        let mut group: Vec<(usize, u32)> = Vec::new();
        let mut d: usize = 0;
        while d < n
            invariant
                d <= n,
                n == documents@.len(),
                group@ == group_of(documents@, segment, d as int),
            decreases n - d,
        {
            if let Some(address) = documents[d].index {
                if address.segment == segment {
                    group.push((d, address.document));
                }
            }
            d = d + 1;
        }
        proof {
            assert(crate::ids::id_set(segments@).contains(segment)) by {
                assert(segments@[g as int] == segment);
            }
            assert(crate::ids::id_set(all).contains(segment));
            let k = choose|k: int| 0 <= k < all.len() && all[k] == segment;
            assert(documents@[k].index is Some);
            lemma_group_present(documents@, segment, k, n as int);
        }
        groups.push((segment, group));
        g = g + 1;
    }
    proof {
        assert forall|i: int| 0 <= i < documents@.len() implies (
        #[trigger] documents@[i]).index is Some && exists|g: int|
            0 <= g < groups@.len() && (#[trigger] groups@[g]).0
                == documents@[i].index->0.segment by {
            let segment = documents@[i].index->0.segment;
            assert(all[i] == segment);
            assert(crate::ids::id_set(all).contains(segment));
            assert(crate::ids::id_set(segments@).contains(segment));
            let g = choose|g: int| 0 <= g < segments@.len() && segments@[g] == segment;
            assert(groups@[g].0 == segment);
        }
    }
    Ok(groups)
}

/// What is wrong with entry `k` of a segment's group.
pub open spec fn entry_error(
    tables: SegmentTables,
    documents: Seq<DocAddress>,
    entry: (usize, u32),
) -> Option<IndexError> {
    if entry.1 >= tables.documents@.len() {
        Some(IndexError::AddressDocument)
    } else if tables.documents@[entry.1 as int].display_key@
        != documents[entry.0 as int].display_key@ {
        Some(IndexError::AddressKey)
    } else {
        None
    }
}

/// The pack request of one candidate.
pub open spec fn entry_request(tables: SegmentTables, entry: (usize, u32)) -> PackRequest {
    let document = tables.documents@[entry.1 as int];
    PackRequest {
        index: entry.0,
        slice: PackSlice {
            first_block: document.first_block,
            block_offset: document.block_offset,
        },
        decoded_size: document.decoded_size,
    }
}

/// The pack requests of the candidates of one segment, whose tables are `tables` if the index has
/// the segment.
pub fn segment_requests(
    tables: Option<&SegmentTables>,
    documents: &[DocAddress],
    group: &[(usize, u32)],
) -> (requests: Result<Vec<PackRequest>, IndexError>)
    requires
        forall|k: int| 0 <= k < group@.len() ==> (#[trigger] group@[k]).0 < documents@.len(),
    ensures
        match requests {
            Ok(list) => tables is Some && list@ == group@.map_values(
                |entry: (usize, u32)| entry_request(*tables->0, entry),
            ) && forall|k: int|
                0 <= k < group@.len() ==> entry_error(
                    *tables->0,
                    documents@,
                    #[trigger] group@[k],
                ) is None,
            Err(e) => match tables {
                None => e == IndexError::AddressSegment,
                Some(tables) => exists|k: int|
                    0 <= k < group@.len() && entry_error(
                        *tables,
                        documents@,
                        #[trigger] group@[k],
                    ) == Some(e) && forall|j: int|
                        0 <= j < k ==> entry_error(
                            *tables,
                            documents@,
                            #[trigger] group@[j],
                        ) is None,
            },
        },
{
    let held = match tables {
        Some(held) => held,
        None => {
            return Err(IndexError::AddressSegment);
        },
    };
    let mut requests: Vec<PackRequest> = Vec::new();
    let mut k: usize = 0;
    while k < group.len()
        invariant
            k <= group.len(),
            tables == Some(held),
            forall|k: int| 0 <= k < group@.len() ==> (#[trigger] group@[k]).0 < documents@.len(),
            requests@.len() == k,
            forall|j: int|
                0 <= j < k ==> #[trigger] requests@[j] == entry_request(*held, group@[j]),
            forall|j: int|
                0 <= j < k ==> entry_error(*held, documents@, #[trigger] group@[j]) is None,
        decreases group.len() - k,
    {
        let (index, id): (usize, u32) = group[k];
        assert(group@[k as int].0 < documents@.len());
        if id as usize >= held.documents.len() {
            assert(entry_error(*held, documents@, group@[k as int]) == Some(
                IndexError::AddressDocument,
            ));
            return Err(IndexError::AddressDocument);
        }
        let document = &held.documents[id as usize];
        if !text_eq(document.display_key.as_str(), documents[index].display_key.as_str()) {
            assert(entry_error(*held, documents@, group@[k as int]) == Some(
                IndexError::AddressKey,
            ));
            return Err(IndexError::AddressKey);
        }
        requests.push(
            PackRequest {
                index,
                slice: PackSlice {
                    first_block: document.first_block,
                    block_offset: document.block_offset,
                },
                decoded_size: document.decoded_size,
            },
        );
        k = k + 1;
    }
    assert(requests@ =~= group@.map_values(|entry: (usize, u32)| entry_request(*held, entry)));
    Ok(requests)
}

/// Candidates lead back to their documents: the address made for a document of a segment's
/// tables yields the request for that document.
pub proof fn addresses_lead_back(
    segment: u32,
    tables: SegmentTables,
    documents: Seq<DocAddress>,
    i: int,
    id: u32,
)
    requires
        0 <= i < documents.len() <= usize::MAX,
        id < tables.documents@.len(),
        documents[i] == address_of(segment, tables, id),
    ensures
        group_of(documents, segment, documents.len() as int).contains((i as usize, id)),
        entry_error(tables, documents, (i as usize, id)) is None,
        entry_request(tables, (i as usize, id)).decoded_size
            == tables.documents@[id as int].decoded_size,
{
    lemma_grouped(documents, segment, i, documents.len() as int);
}

proof fn lemma_grouped(documents: Seq<DocAddress>, segment: u32, i: int, n: int)
    requires
        0 <= i < n <= documents.len() <= usize::MAX,
        lies_in(documents, segment, i),
    ensures
        group_of(documents, segment, n).contains((i as usize, documents[i].index->0.document)),
    decreases n,
{
    let before = group_of(documents, segment, n - 1);
    let all = group_of(documents, segment, n);
    if i < n - 1 {
        lemma_grouped(documents, segment, i, n - 1);
        let k = choose|k: int|
            0 <= k < before.len() && before[k] == (i as usize, documents[i].index->0.document);
        assert(all[k] == before[k]);
    } else {
        assert(all[before.len() as int] == (i as usize, documents[i].index->0.document));
    }
}

/// No candidate comes before an earlier one by key.
pub open spec fn in_display_order(documents: Seq<DocAddress>) -> bool {
    forall|i: int, j: int|
        0 <= i < j < documents.len() ==> !crate::text::text_before(
            (#[trigger] documents[j]).display_key@,
            (#[trigger] documents[i]).display_key@,
        )
}

proof fn lemma_display_insert(sorted: Seq<DocAddress>, item: DocAddress, at: int)
    requires
        in_display_order(sorted),
        0 <= at <= sorted.len(),
        forall|k: int|
            0 <= k < at ==> crate::text::text_before(
                (#[trigger] sorted[k]).display_key@,
                item.display_key@,
            ),
        at < sorted.len() ==> !crate::text::text_before(
            sorted[at].display_key@,
            item.display_key@,
        ),
    ensures
        in_display_order(sorted.insert(at, item)),
        sorted.insert(at, item).to_multiset() == sorted.to_multiset().insert(item),
{
    let grown = sorted.insert(at, item);
    let key = crate::text::utf8(item.display_key@);
    assert forall|i: int, j: int| 0 <= i < j < grown.len() implies !crate::text::text_before(
        (#[trigger] grown[j]).display_key@,
        (#[trigger] grown[i]).display_key@,
    ) by {
        let x = crate::text::utf8(grown[i].display_key@);
        let y = crate::text::utf8(grown[j].display_key@);
        if crate::text::bytes_before(y, x) {
            if i == at {
                let first = crate::text::utf8(sorted[at].display_key@);
                crate::text::lemma_before_total(first, y);
                if crate::text::bytes_before(first, y) {
                    crate::text::lemma_before_transitive(first, y, key);
                } else if crate::text::bytes_before(y, first) {
                    assert(at < j - 1);
                    assert(grown[j] == sorted[j - 1]);
                }
            } else if j == at {
                assert(grown[i] == sorted[i]);
                crate::text::lemma_before_transitive(x, y, x);
                crate::text::lemma_before_irreflexive(x);
            } else {
                let si = if i < at { i } else { i - 1 };
                let sj = if j < at { j } else { j - 1 };
                assert(grown[i] == sorted[si]);
                assert(grown[j] == sorted[sj]);
            }
        }
    }
    vstd::seq_lib::to_multiset_insert(sorted, at, item);
}

/// The candidates by display key.
pub fn sort_addresses(documents: Vec<DocAddress>) -> (sorted: Vec<DocAddress>)
    ensures
        in_display_order(sorted@),
        sorted@.to_multiset() == documents@.to_multiset(),
{
    broadcast use vstd::seq_lib::group_to_multiset_ensures;

    let mut rest = documents;
    let mut sorted: Vec<DocAddress> = Vec::new();
    assert(rest@.to_multiset().add(sorted@.to_multiset()) =~= documents@.to_multiset());
    while rest.len() > 0
        invariant
            in_display_order(sorted@),
            rest@.to_multiset().add(sorted@.to_multiset()) == documents@.to_multiset(),
        decreases rest.len(),
    {
        let ghost before = rest@;
        let ghost held = sorted@;
        if let Some(item) = rest.pop() {
            let mut at: usize = 0;
            while at < sorted.len() && text_less(
                sorted[at].display_key.as_str(),
                item.display_key.as_str(),
            )
                invariant
                    at <= sorted.len(),
                    forall|k: int|
                        0 <= k < at ==> crate::text::text_before(
                            (#[trigger] sorted@[k]).display_key@,
                            item.display_key@,
                        ),
                decreases sorted.len() - at,
            {
                at = at + 1;
            }
            proof {
                lemma_display_insert(sorted@, item, at as int);
            }
            sorted.insert(at, item);
            proof {
                assert(before =~= rest@.push(item));
                vstd::seq_lib::to_multiset_build(rest@, item);
                assert(sorted@ == held.insert(at as int, item));
                assert(rest@.to_multiset().add(sorted@.to_multiset()) =~= documents@.to_multiset());
            }
        }
    }
    assert(rest@ =~= Seq::<DocAddress>::empty());
    assert(sorted@.to_multiset() =~= documents@.to_multiset());
    sorted
}

/// The address of a document says where it is found: its own key and path, its source with the version
/// that was indexed, and its place in the index.
pub proof fn addresses_name_their_document(segment: u32, tables: SegmentTables, id: u32)
    requires
        id < tables.documents@.len(),
        tables.documents@[id as int].source_id < tables.sources@.len(),
    ensures
        ({
            let address = address_of(segment, tables, id);
            let source = tables.sources@[tables.documents@[id as int].source_id as int];
            &&& address.display_key@ == tables.documents@[id as int].display_key@
            &&& address.member_path == tables.documents@[id as int].member_path
            &&& address.source_key@ == source.key@
            &&& address.source_version@ == source.version@
            &&& address.encoded_size == source.encoded_size
            &&& address.encoding == source.encoding
            &&& address.index matches Some(place) && place.segment == segment && place.document
                == id
        }),
{
}

/// A segment's group holds the documents of that segment, each at its place, and no others.
pub proof fn groups_hold_their_segment(
    documents: Seq<DocAddress>,
    segment: u32,
    n: int,
    i: int,
    id: u32,
)
    requires
        0 <= n <= documents.len() <= usize::MAX,
        0 <= i <= usize::MAX,
    ensures
        group_of(documents, segment, n).contains((i as usize, id)) <==> i < n && (
        documents[i].index matches Some(place) && place.segment == segment && place.document == id),
    decreases n,
{
    if n > 0 {
        groups_hold_their_segment(documents, segment, n - 1, i, id);
        let before = group_of(documents, segment, n - 1);
        let all = group_of(documents, segment, n);
        let entry = (i as usize, id);
        if before.contains(entry) {
            let k = choose|k: int| 0 <= k < before.len() && before[k] == entry;
            assert(all[k] == entry);
        }
        if all.contains(entry) && !before.contains(entry) {
            let k = choose|k: int| 0 <= k < all.len() && all[k] == entry;
            if k < before.len() {
                assert(before[k] == entry);
            }
        }
        if i == n - 1 && lies_in(documents, segment, n - 1) {
            assert(all[all.len() - 1].0 == i);
        }
    }
}

} // verus!
