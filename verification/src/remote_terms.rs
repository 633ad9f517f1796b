//! Ranged access to large sparse term tables: opening one reads its block index alone, and a
//! query reads the blocks that its grams lie in.

use std::collections::BTreeMap;
use vstd::prelude::*;
use vstd::slice::slice_to_vec;

use crate::bits::read_u64_le;
use crate::digest::hash_matches;
use crate::digest::hash_text_matches;
use crate::digest::sha256_hex;
use crate::error::IndexError;
use crate::eval::TermLookup;
use crate::eval::TermValue;
use crate::maps::entries;
use crate::query::Query;
use crate::query::QueryTree;
use crate::sparse_table::lookup_in_block;
use crate::sparse_table::SparseTableIndex;
use crate::sparse_table::FOOTER_BYTES;
use crate::sparse_table::SPARSE_TABLE_MAGIC;
use crate::text::bytes_eq;

verus! {

/// The range of a table's footer.
pub fn footer_range(terms_len: u64) -> (range: Result<(u64, u64), IndexError>)
    ensures
        match range {
            Ok(range) => terms_len > FOOTER_BYTES && range.0 == terms_len - FOOTER_BYTES
                && range.1 == FOOTER_BYTES,
            Err(e) => terms_len <= FOOTER_BYTES && e == IndexError::TermsTooShort,
        },
{
    if terms_len <= FOOTER_BYTES as u64 {
        return Err(IndexError::TermsTooShort);
    }
    Ok((terms_len - FOOTER_BYTES as u64, FOOTER_BYTES as u64))
}

/// The range of a table's index and footer, as the footer says.
pub fn tail_range(terms_len: u64, footer: &[u8]) -> (range: Result<(u64, u64), IndexError>)
    ensures
        match range {
            Ok(range) => footer@.len() == FOOTER_BYTES && range.0 == crate::sparse_table::field(
                footer@,
                16,
            ) && range.0 < terms_len && range.1 == terms_len - range.0,
            Err(e) => if footer@.len() != FOOTER_BYTES {
                e == IndexError::TermsFooterShort
            } else {
                crate::sparse_table::field(footer@, 16) >= terms_len && e
                    == IndexError::TermsIndexBounds
            },
        },
{
    if footer.len() != FOOTER_BYTES {
        return Err(IndexError::TermsFooterShort);
    }
    let index_offset: u64 = read_u64_le(footer, 16);
    if index_offset >= terms_len {
        return Err(IndexError::TermsIndexBounds);
    }
    Ok((index_offset, terms_len - index_offset))
}

/// The tail that was read is as long as asked for.
pub fn check_tail(tail: &[u8], tail_len: u64) -> (checked: Result<(), IndexError>)
    ensures
        match checked {
            Ok(_) => tail@.len() == tail_len,
            Err(e) => tail@.len() != tail_len && e == IndexError::TermsTailShort,
        },
{
    if tail.len() as u64 != tail_len {
        return Err(IndexError::TermsTailShort);
    }
    Ok(())
}

/// The block index in a table's tail, which must be the one that was written.
pub fn parse_index_tail(
    terms_len: u64,
    tail: &[u8],
    expected_tail_hash: &str,
) -> (parsed: Result<SparseTableIndex, IndexError>)
    ensures
        match parsed {
            Ok(index) => crate::digest::sha256_hex_of(tail@) == expected_tail_hash@
                && crate::sparse_table::table_index(terms_len as nat, tail@) == Ok::<
                (nat, Seq<crate::sparse_table::BlockView>),
                IndexError,
            >((index.entry_count as nat, crate::sparse_table::block_views(index.blocks@)))
                && index.wf(),
            Err(e) => if crate::digest::sha256_hex_of(tail@) != expected_tail_hash@ {
                e == IndexError::TermsTailHash
            } else {
                crate::sparse_table::table_index(terms_len as nat, tail@) == Err::<
                    (nat, Seq<crate::sparse_table::BlockView>),
                    IndexError,
                >(e)
            },
        },
{
    if !hash_text_matches(tail, expected_tail_hash) {
        return Err(IndexError::TermsTailHash);
    }
    SparseTableIndex::parse(terms_len, tail)
}

/// The digest of a sparse table's tail, in hex; nothing for bytes that are no sparse table.
pub open spec fn tail_digest(bytes: Seq<u8>) -> Result<Option<Seq<char>>, IndexError> {
    let n = bytes.len() as int;
    if n < 8 + FOOTER_BYTES || bytes.subrange(0, 8) != SPARSE_TABLE_MAGIC@ {
        Ok(None)
    } else if bytes.subrange(n - 8, n) != SPARSE_TABLE_MAGIC@ {
        Err(IndexError::TableMagic)
    } else if crate::sparse_table::field(bytes, n - 16) >= n {
        Err(IndexError::TermsIndexBounds)
    } else {
        Ok(
            Some(
                crate::digest::sha256_hex_of(
                    bytes.skip(crate::sparse_table::field(bytes, n - 16) as int),
                ),
            ),
        )
    }
}

/// The digest of a finished table's tail, in hex; nothing for bytes that are no sparse table.
pub fn tail_hash_of(bytes: &[u8]) -> (hash: Result<Option<String>, IndexError>)
    ensures
        match hash {
            Ok(Some(text)) => tail_digest(bytes@) == Ok::<Option<Seq<char>>, IndexError>(
                Some(text@),
            ),
            Ok(None) => tail_digest(bytes@) == Ok::<Option<Seq<char>>, IndexError>(None),
            Err(e) => tail_digest(bytes@) == Err::<Option<Seq<char>>, IndexError>(e),
        },
{
    let magic: [u8; 8] = SPARSE_TABLE_MAGIC;
    let n: usize = bytes.len();
    if n < 8 + FOOTER_BYTES {
        return Ok(None);
    }
    if !bytes_eq(vstd::slice::slice_subrange(bytes, 0, 8), vstd::array::array_as_slice(&magic)) {
        return Ok(None);
    }
    if !bytes_eq(
        vstd::slice::slice_subrange(bytes, n - 8, n),
        vstd::array::array_as_slice(&magic),
    ) {
        return Err(IndexError::TableMagic);
    }
    let index_offset: u64 = read_u64_le(bytes, n - 16);
    if index_offset >= n as u64 {
        return Err(IndexError::TermsIndexBounds);
    }
    let tail: &[u8] = vstd::slice::slice_subrange(bytes, index_offset as usize, n);
    assert(tail@ =~= bytes@.skip(index_offset as int));
    Ok(Some(sha256_hex(tail)))
}

/// The grams of a query, in order.
pub open spec fn grams_in(tree: QueryTree) -> Seq<Seq<u8>>
    decreases tree, 0nat,
{
    match tree {
        QueryTree::All => Seq::empty(),
        QueryTree::Gram(gram) => seq![gram],
        QueryTree::And(subs) => grams_in_first(subs, subs.len()),
        QueryTree::Or(subs) => grams_in_first(subs, subs.len()),
    }
}

/// The grams of the first `n` of several queries.
pub open spec fn grams_in_first(subs: Seq<QueryTree>, n: nat) -> Seq<Seq<u8>>
    decreases subs, n,
{
    if n == 0 || n > subs.len() {
        Seq::empty()
    } else {
        grams_in_first(subs, (n - 1) as nat) + grams_in(subs[n - 1])
    }
}

pub open spec fn byte_views(list: Seq<Vec<u8>>) -> Seq<Seq<u8>> {
    list.map_values(|bytes: Vec<u8>| bytes@)
}

/// Gather the grams of a query.
pub fn collect_grams(q: &Query, out: &mut Vec<Vec<u8>>)
    ensures
        byte_views(final(out)@) == byte_views(old(out)@) + grams_in(q.tree()),
    decreases q,
{
    let ghost start = byte_views(out@);
    match q {
        Query::All => {
            assert(byte_views(out@) =~= start + grams_in(q.tree()));
        },
        Query::Gram(gram) => {
            out.push(slice_to_vec(gram.as_slice()));
            assert(byte_views(out@) =~= start + grams_in(q.tree()));
        },
        Query::And(subs) => {
            collect_all(subs.as_slice(), out);
        },
        Query::Or(subs) => {
            collect_all(subs.as_slice(), out);
        },
    }
}

fn collect_all(subs: &[Query], out: &mut Vec<Vec<u8>>)
    ensures
        byte_views(final(out)@) == byte_views(old(out)@) + grams_in_first(
            crate::query::trees(subs@),
            subs@.len(),
        ),
    decreases subs@,
{
    let ghost start = byte_views(out@);
    let ghost list = crate::query::trees(subs@);
    assert(byte_views(out@) =~= start + grams_in_first(list, 0));
    let mut i: usize = 0;
    while i < subs.len()
        invariant
            i <= subs.len(),
            list == crate::query::trees(subs@),
            byte_views(out@) == start + grams_in_first(list, i as nat),
        decreases subs.len() - i,
    {
        assert(list[i as int] == subs@[i as int].tree());
        collect_grams(&subs[i], out);
        assert(byte_views(out@) =~= start + grams_in_first(list, (i + 1) as nat));
        i = i + 1;
    }
}

/// Strictly ascending.
pub open spec fn ascending_numbers(list: Seq<u64>) -> bool {
    forall|i: int, j: int| 0 <= i < j < list.len() ==> list[i] < list[j]
}

/// The numbers sorted, each once.
pub fn sorted_numbers(numbers: &[u64]) -> (sorted: Vec<u64>)
    ensures
        ascending_numbers(sorted@),
        forall|x: u64| #[trigger] sorted@.contains(x) <==> numbers@.contains(x),
{
    broadcast use vstd::std_specs::btree::group_btree_axioms;

    let mut seen: BTreeMap<u64, bool> = BTreeMap::new();
    let mut i: usize = 0;
    while i < numbers.len()
        invariant
            i <= numbers.len(),
            forall|x: u64| #[trigger]
                seen@.contains_key(x) <==> numbers@.take(i as int).contains(x),
        decreases numbers.len() - i,
    {
        seen.insert(numbers[i], true);
        proof {
            crate::ids::lemma_take_contains(numbers@, i as int);
        }
        i = i + 1;
    }
    assert(numbers@.take(i as int) =~= numbers@);
    let list = entries(&seen);
    let mut sorted: Vec<u64> = Vec::new();
    let mut k: usize = 0;
    while k < list.len()
        invariant
            k <= list.len(),
            sorted@.len() == k,
            forall|j: int| 0 <= j < k ==> #[trigger] sorted@[j] == list@[j].0,
        decreases list.len() - k,
    {
        sorted.push(list[k].0);
        k = k + 1;
    }
    proof {
        assert forall|a: int, b: int| 0 <= a < b < sorted@.len() implies sorted@[a]
            < sorted@[b] by {
            assert(list@[a].0 < list@[b].0);
        }
        assert forall|x: u64| #[trigger] sorted@.contains(x) <==> numbers@.contains(x) by {
            if sorted@.contains(x) {
                let j = choose|j: int| 0 <= j < sorted@.len() && sorted@[j] == x;
                assert(seen@.contains_key(list@[j].0));
            }
            if numbers@.contains(x) {
                assert(seen@.contains_key(x));
                let j = choose|j: int| 0 <= j < list@.len() && (#[trigger] list@[j]).0 == x;
                assert(sorted@[j] == x);
            }
        }
    }
    sorted
}

/// Block `block` may hold one of `hashes`.
pub open spec fn block_wanted(
    blocks: Seq<crate::sparse_table::BlockView>,
    hashes: Seq<u64>,
    block: u64,
) -> bool {
    exists|k: int|
        0 <= k < hashes.len() && crate::sparse_table::block_position(blocks, #[trigger] hashes[k])
            == Some(block as nat)
}

/// The blocks in which hashes of a query lie, each once, in order.
pub fn query_blocks(index: &SparseTableIndex, hashes: &[u64]) -> (blocks: Vec<u64>)
    requires
        index.wf(),
    ensures
        ascending_numbers(blocks@),
        forall|block: u64| #[trigger]
            blocks@.contains(block) <==> block_wanted(
                crate::sparse_table::block_views(index.blocks@),
                hashes@,
                block,
            ),
        forall|k: int| 0 <= k < blocks@.len() ==> (#[trigger] blocks@[k]) < index.blocks@.len(),
{
    let ghost views = crate::sparse_table::block_views(index.blocks@);
    let mut wanted: Vec<u64> = Vec::new();
    let mut i: usize = 0;
    while i < hashes.len()
        invariant
            i <= hashes.len(),
            index.wf(),
            views == crate::sparse_table::block_views(index.blocks@),
            forall|block: u64| #[trigger]
                wanted@.contains(block) <==> block_wanted(views, hashes@.take(i as int), block),
            forall|k: int|
                0 <= k < wanted@.len() ==> (#[trigger] wanted@[k]) < index.blocks@.len(),
        decreases hashes.len() - i,
    {
        let ghost before = wanted@;
        let found = index.block_for(hashes[i]);
        if let Some(block) = found {
            wanted.push(block as u64);
        }
        assert forall|block: u64| #[trigger] wanted@.contains(block) <==> block_wanted(
            views,
            hashes@.take(i + 1),
            block,
        ) by {
            let more = hashes@.take(i + 1);
            let less = hashes@.take(i as int);
            if found is Some {
                crate::ids::lemma_push_contains(before, found->0 as u64);
            }
            if block_wanted(views, more, block) {
                let k = choose|k: int|
                    0 <= k < more.len() && crate::sparse_table::block_position(
                        views,
                        #[trigger] more[k],
                    ) == Some(block as nat);
                if k < i {
                    assert(less[k] == more[k]);
                    assert(block_wanted(views, less, block));
                } else {
                    assert(more[k] == hashes@[i as int]);
                }
            }
            if block_wanted(views, less, block) {
                let k = choose|k: int|
                    0 <= k < less.len() && crate::sparse_table::block_position(
                        views,
                        #[trigger] less[k],
                    ) == Some(block as nat);
                assert(more[k] == less[k]);
            }
            if found is Some && found->0 as u64 == block {
                assert(more[i as int] == hashes@[i as int]);
                assert(block_wanted(views, more, block));
            }
        }
        i = i + 1;
    }
    assert(hashes@.take(i as int) =~= hashes@);
    let blocks = sorted_numbers(wanted.as_slice());
    assert forall|k: int| 0 <= k < blocks@.len() implies (#[trigger] blocks@[k])
        < index.blocks@.len() by {
        assert(blocks@.contains(blocks@[k]));
        let j = choose|j: int| 0 <= j < wanted@.len() && wanted@[j] == blocks@[k];
        assert(wanted@[j] < index.blocks@.len());
    }
    blocks
}

/// The byte ranges of blocks.
pub fn block_ranges(index: &SparseTableIndex, missing: &[u64]) -> (ranges: Vec<(u64, u64)>)
    requires
        forall|k: int| 0 <= k < missing@.len() ==> (#[trigger] missing@[k]) < index.blocks@.len(),
    ensures
        ranges@ == missing@.map_values(
            |block: u64| (index.blocks@[block as int].offset, index.blocks@[block as int].len),
        ),
{
    let total: usize = index.blocks.len();
    let mut ranges: Vec<(u64, u64)> = Vec::new();
    let mut i: usize = 0;
    while i < missing.len()
        invariant
            i <= missing.len(),
            total == index.blocks@.len(),
            forall|k: int|
                0 <= k < missing@.len() ==> (#[trigger] missing@[k]) < index.blocks@.len(),
            ranges@.len() == i,
            forall|k: int|
                0 <= k < i ==> #[trigger] ranges@[k] == (
                    index.blocks@[missing@[k] as int].offset,
                    index.blocks@[missing@[k] as int].len,
                ),
        decreases missing.len() - i,
    {
        assert(missing@[i as int] < index.blocks@.len());
        let block = &index.blocks[missing[i] as usize];
        ranges.push((block.offset, block.len));
        i = i + 1;
    }
    assert(ranges@ =~= missing@.map_values(
        |block: u64| (index.blocks@[block as int].offset, index.blocks@[block as int].len),
    ));
    ranges
}

/// Fetched block `k` is the one that was written.
pub open spec fn block_genuine(
    index: SparseTableIndex,
    missing: Seq<u64>,
    fetched: Seq<Vec<u8>>,
    k: int,
) -> bool {
    crate::digest::sha256_of(fetched[k]@)@ == index.blocks@[missing[k] as int].hash@
}

/// Check fetched blocks: as many as asked for, and each the one that was written.
pub fn check_blocks(
    index: &SparseTableIndex,
    missing: &[u64],
    fetched: &[Vec<u8>],
) -> (checked: Result<(), IndexError>)
    requires
        forall|k: int| 0 <= k < missing@.len() ==> (#[trigger] missing@[k]) < index.blocks@.len(),
    ensures
        match checked {
            Ok(_) => fetched@.len() == missing@.len() && forall|k: int|
                0 <= k < missing@.len() ==> #[trigger] block_genuine(
                    *index,
                    missing@,
                    fetched@,
                    k,
                ),
            Err(e) => if fetched@.len() != missing@.len() {
                e == (IndexError::TermsFetchCount {
                    fetched: fetched@.len() as usize,
                    asked: missing@.len() as usize,
                })
            } else {
                e == IndexError::TermBlockHash && exists|k: int|
                    0 <= k < missing@.len() && !(#[trigger] block_genuine(
                        *index,
                        missing@,
                        fetched@,
                        k,
                    ))
            },
        },
{
    if fetched.len() != missing.len() {
        return Err(IndexError::TermsFetchCount { fetched: fetched.len(), asked: missing.len() });
    }
    let total: usize = index.blocks.len();
    let mut i: usize = 0;
    while i < missing.len()
        invariant
            i <= missing.len(),
            total == index.blocks@.len(),
            fetched.len() == missing.len(),
            forall|k: int|
                0 <= k < missing@.len() ==> (#[trigger] missing@[k]) < index.blocks@.len(),
            forall|k: int|
                0 <= k < i ==> #[trigger] block_genuine(*index, missing@, fetched@, k),
        decreases missing.len() - i,
    {
        assert(missing@[i as int] < index.blocks@.len());
        if !hash_matches(fetched[i].as_slice(), &index.blocks[missing[i] as usize].hash) {
            assert(!block_genuine(*index, missing@, fetched@, i as int));
            return Err(IndexError::TermBlockHash);
        }
        assert(block_genuine(*index, missing@, fetched@, i as int));
        i = i + 1;
    }
    Ok(())
}

/// The value of `hash`, read from the block that the index picks, if that block is at hand.
pub open spec fn hash_value(
    views: Seq<crate::sparse_table::BlockView>,
    blocks: Map<u64, Vec<u8>>,
    hash: u64,
) -> Result<Option<u64>, IndexError> {
    match crate::sparse_table::block_position(views, hash) {
        None => Ok(None),
        Some(k) => if !blocks.contains_key(k as u64) {
            Err(IndexError::TermBlockMissing)
        } else {
            let block = blocks[k as u64]@;
            if block.len() == 0 || block.len() % crate::sparse_table::ENTRY_BYTES as nat != 0 {
                Err(IndexError::TableBlockLength)
            } else {
                Ok(
                    crate::sparse_table::bisected(
                        block,
                        hash,
                        0,
                        block.len() as int / crate::sparse_table::ENTRY_BYTES as int,
                    ),
                )
            }
        },
    }
}

/// The entry of a map, if it has one.
pub open spec fn entry_of(values: Map<u64, u64>, hash: u64) -> Option<u64> {
    if values.contains_key(hash) {
        Some(values[hash])
    } else {
        None
    }
}

/// The values of the first `n` hashes are in the map, and no others.
pub open spec fn holds_values(
    values: Map<u64, u64>,
    views: Seq<crate::sparse_table::BlockView>,
    blocks: Map<u64, Vec<u8>>,
    hashes: Seq<u64>,
    n: int,
) -> bool {
    &&& forall|k: int|
        0 <= k < n ==> hash_value(views, blocks, #[trigger] hashes[k]) == Ok::<
            Option<u64>,
            IndexError,
        >(entry_of(values, hashes[k]))
    &&& forall|hash: u64| #[trigger]
        values.contains_key(hash) ==> exists|k: int| 0 <= k < n && #[trigger] hashes[k] == hash
}

/// The values of `hashes`, read from blocks that are at hand. A hash that the table does not have
/// is left out.
pub fn gram_values(
    index: &SparseTableIndex,
    hashes: &[u64],
    blocks: &BTreeMap<u64, Vec<u8>>,
) -> (values: Result<BTreeMap<u64, u64>, IndexError>)
    requires
        index.wf(),
    ensures
        ({
            let views = crate::sparse_table::block_views(index.blocks@);
            match values {
                Ok(values) => holds_values(
                    values@,
                    views,
                    blocks@,
                    hashes@,
                    hashes@.len() as int,
                ),
                Err(e) => exists|k: int|
                    0 <= k < hashes@.len() && hash_value(views, blocks@, #[trigger] hashes@[k])
                        == Err::<Option<u64>, IndexError>(e) && forall|j: int|
                        0 <= j < k ==> hash_value(views, blocks@, #[trigger] hashes@[j]) is Ok,
            }
        }),
{
    broadcast use vstd::std_specs::btree::group_btree_axioms;

    let ghost views = crate::sparse_table::block_views(index.blocks@);
    let mut values: BTreeMap<u64, u64> = BTreeMap::new();
    let mut i: usize = 0;
    while i < hashes.len()
        invariant
            i <= hashes.len(),
            index.wf(),
            views == crate::sparse_table::block_views(index.blocks@),
            holds_values(values@, views, blocks@, hashes@, i as int),
        decreases hashes.len() - i,
    {
        let hash: u64 = hashes[i];
        let ghost before = values@;
        let mut found: Option<u64> = None;
        assert forall|j: int| 0 <= j < i implies hash_value(
            views,
            blocks@,
            #[trigger] hashes@[j],
        ) is Ok by {}
        if let Some(block) = index.block_for(hash) {
            match blocks.get(&(block as u64)) {
                None => {
                    assert(hash_value(views, blocks@, hashes@[i as int]) is Err);
                    return Err(IndexError::TermBlockMissing);
                },
                Some(bytes) => {
                    match lookup_in_block(bytes.as_slice(), hash) {
                        Ok(value) => {
                            found = value;
                        },
                        Err(e) => {
                            assert(hash_value(views, blocks@, hashes@[i as int]) is Err);
                            return Err(e);
                        },
                    }
                },
            }
        }
        assert(hash_value(views, blocks@, hash) == Ok::<Option<u64>, IndexError>(found));
        if let Some(value) = found {
            values.insert(hash, value);
        }
        proof {
            if found is None && before.contains_key(hash) {
                let k = choose|k: int| 0 <= k < i && #[trigger] hashes@[k] == hash;
                assert(hash_value(views, blocks@, hashes@[k]) == Ok::<Option<u64>, IndexError>(
                    entry_of(before, hashes@[k]),
                ));
            }
            assert forall|k: int| 0 <= k < i + 1 implies hash_value(
                views,
                blocks@,
                #[trigger] hashes@[k],
            ) == Ok::<Option<u64>, IndexError>(entry_of(values@, hashes@[k])) by {
                if k < i {
                    assert(hash_value(views, blocks@, hashes@[k]) == Ok::<Option<u64>, IndexError>(
                        entry_of(before, hashes@[k]),
                    ));
                }
            }
            assert forall|h: u64| #[trigger] values@.contains_key(h) implies exists|k: int|
                0 <= k < i + 1 && #[trigger] hashes@[k] == h by {
                if h == hash {
                    assert(hashes@[i as int] == h);
                } else {
                    assert(before.contains_key(h));
                    let k = choose|k: int| 0 <= k < i && #[trigger] hashes@[k] == h;
                    assert(hashes@[k] == h);
                }
            }
        }
        i = i + 1;
    }
    Ok(values)
}

/// A query's terms, looked up ahead: its grams, and what the dictionary has for each.
#[derive(Debug)]
pub struct QueryTerms {
    pub grams: Vec<Vec<u8>>,
    pub found: Vec<Option<TermValue>>,
}

/// What is known of `gram` from gram `k` on.
pub open spec fn term_from(
    terms: QueryTerms,
    gram: Seq<u8>,
    k: int,
) -> Result<Option<TermValue>, IndexError>
    decreases terms.grams@.len() - k,
{
    if k < 0 || k >= terms.grams@.len() || k >= terms.found@.len() {
        Err(IndexError::TermNotCollected)
    } else if terms.grams@[k]@ == gram {
        Ok(terms.found@[k])
    } else {
        term_from(terms, gram, k + 1)
    }
}

impl TermLookup for QueryTerms {
    open spec fn value(&self, gram: Seq<u8>) -> Result<Option<TermValue>, IndexError> {
        term_from(*self, gram, 0)
    }

    fn lookup(&self, gram: &[u8]) -> (found: Result<Option<TermValue>, IndexError>) {
        let mut k: usize = 0;
        while k < self.grams.len() && k < self.found.len()
            invariant
                k <= self.grams.len(),
                k <= self.found.len(),
                term_from(*self, gram@, 0) == term_from(*self, gram@, k as int),
            decreases self.grams.len() - k,
        {
            if bytes_eq(self.grams[k].as_slice(), gram) {
                return Ok(self.found[k]);
            }
            k = k + 1;
        }
        Err(IndexError::TermNotCollected)
    }
}

/// What a table has for a hash.
pub open spec fn term_of(values: Map<u64, u64>, hash: u64) -> Option<TermValue> {
    match entry_of(values, hash) {
        Some(packed) => Some(TermValue { packed, len: None }),
        None => None,
    }
}

/// What a table has for each hash.
pub fn found_terms(hashes: &[u64], values: &BTreeMap<u64, u64>) -> (found: Vec<Option<TermValue>>)
    ensures
        found@ == hashes@.map_values(|hash: u64| term_of(values@, hash)),
{
    broadcast use vstd::std_specs::btree::group_btree_axioms;

    let mut found: Vec<Option<TermValue>> = Vec::new();
    let mut i: usize = 0;
    while i < hashes.len()
        invariant
            i <= hashes.len(),
            found@.len() == i,
            forall|k: int| 0 <= k < i ==> #[trigger] found@[k] == term_of(values@, hashes@[k]),
        decreases hashes.len() - i,
    {
        let term: Option<TermValue> = match values.get(&hashes[i]) {
            Some(packed) => Some(TermValue { packed: *packed, len: None }),
            None => None,
        };
        found.push(term);
        i = i + 1;
    }
    assert(found@ =~= hashes@.map_values(|hash: u64| term_of(values@, hash)));
    found
}

/// A gram that was gathered is known, as long as equal grams were found equal.
pub proof fn gathered_grams_resolve(terms: QueryTerms, k: int)
    requires
        0 <= k < terms.grams@.len(),
        terms.grams@.len() == terms.found@.len(),
        forall|i: int, j: int|
            0 <= i < terms.grams@.len() && 0 <= j < terms.grams@.len() && (
            #[trigger] terms.grams@[i])@ == (#[trigger] terms.grams@[j])@ ==> terms.found@[i]
                == terms.found@[j],
    ensures
        terms.value(terms.grams@[k]@) == Ok::<Option<TermValue>, IndexError>(terms.found@[k]),
{
    lemma_term_from(terms, k, 0);
}

proof fn lemma_term_from(terms: QueryTerms, k: int, i: int)
    requires
        0 <= i <= k < terms.grams@.len(),
        terms.grams@.len() == terms.found@.len(),
        forall|i: int, j: int|
            0 <= i < terms.grams@.len() && 0 <= j < terms.grams@.len() && (
            #[trigger] terms.grams@[i])@ == (#[trigger] terms.grams@[j])@ ==> terms.found@[i]
                == terms.found@[j],
    ensures
        term_from(terms, terms.grams@[k]@, i) == Ok::<Option<TermValue>, IndexError>(
            terms.found@[k],
        ),
    decreases k - i,
{
    if terms.grams@[i]@ != terms.grams@[k]@ {
        lemma_term_from(terms, k, i + 1);
    }
}

/// Read by ranges, a table gives what was inserted: with the blocks that a query needs at hand, a
/// hash has the value that it was inserted with, and none if it was not.
pub proof fn ranged_lookups_find_inserted(
    table: Seq<(u64, u64)>,
    blocks: Map<u64, Vec<u8>>,
    hash: u64,
)
    requires
        crate::sparse_table::hashes_ascend(table),
        crate::sparse_table::table_bytes(table).len() <= u64::MAX,
        crate::sparse_table::block_position(
            crate::sparse_table::table_blocks(table),
            hash,
        ) matches Some(k) ==> blocks.contains_key(k as u64) && blocks[k as u64]@
            == crate::sparse_table::data_bytes(crate::sparse_table::block_entries(table, k)),
    ensures
        hash_value(crate::sparse_table::table_blocks(table), blocks, hash) == Ok::<
            Option<u64>,
            IndexError,
        >(crate::sparse_table::value_of(table, hash)),
{
    crate::sparse_table::lemma_table_len(table);
    crate::sparse_table::table_lookup_finds_inserted(table, hash);
    if let Some(k) = crate::sparse_table::block_position(
        crate::sparse_table::table_blocks(table),
        hash,
    ) {
        let part = crate::sparse_table::block_entries(table, k);
        crate::sparse_table::lemma_data_len(part);
        assert(part.len() > 0);
        assert(crate::sparse_table::data_bytes(part).len() % 16 == 0);
    }
}

/// A finished table has a tail: its digest is that of the block index and the footer, the bytes
/// that opening the table reads.
pub proof fn finished_tables_have_tails(table: Seq<(u64, u64)>)
    requires
        crate::sparse_table::table_bytes(table).len() <= u64::MAX,
    ensures
        tail_digest(crate::sparse_table::table_bytes(table)) == Ok::<
            Option<Seq<char>>,
            IndexError,
        >(
            Some(
                crate::digest::sha256_hex_of(
                    crate::sparse_table::index_bytes(
                        table,
                        crate::sparse_table::block_count(table.len()),
                    ) + crate::sparse_table::footer_bytes(table),
                ),
            ),
        ),
{
    broadcast use vstd::array::group_array_axioms;

    crate::sparse_table::lemma_table_len(table);
    let bytes = crate::sparse_table::table_bytes(table);
    let blocks = crate::sparse_table::block_count(table.len());
    let index = crate::sparse_table::index_bytes(table, blocks);
    let footer = crate::sparse_table::footer_bytes(table);
    let offset = (8 + 16 * table.len()) as nat;
    let n = bytes.len() as int;
    crate::sparse_table::lemma_data_len(table);
    crate::sparse_table::lemma_index_len(table, blocks);
    crate::bits::lemma_u64_bytes(table.len() as u64);
    crate::bits::lemma_u64_bytes(blocks as u64);
    crate::bits::lemma_u64_bytes(offset as u64);
    assert(bytes.subrange(0, 8) =~= SPARSE_TABLE_MAGIC@);
    assert(bytes.subrange(n - 8, n) =~= SPARSE_TABLE_MAGIC@);
    assert(bytes.subrange(n - 16, n - 16 + 8) =~= crate::bits::le_bytes(offset, 8));
    assert(bytes.skip(offset as int) =~= index + footer);
}

/// Two gram sets agree on the grams of a list.
pub open spec fn agree_on(
    grams: Seq<Seq<u8>>,
    one: spec_fn(Seq<u8>) -> bool,
    other: spec_fn(Seq<u8>) -> bool,
) -> bool {
    forall|k: int| 0 <= k < grams.len() ==> one(#[trigger] grams[k]) == other(grams[k])
}

proof fn lemma_grams_of_part(subs: Seq<QueryTree>, n: nat, i: int)
    requires
        0 <= i < n <= subs.len(),
    ensures
        forall|gram: Seq<u8>| #[trigger]
            grams_in(subs[i]).contains(gram) ==> grams_in_first(subs, n).contains(gram),
    decreases n,
{
    let before = grams_in_first(subs, (n - 1) as nat);
    let own = grams_in(subs[n - 1]);
    let all = grams_in_first(subs, n);
    assert(all == before + own);
    if i < n - 1 {
        lemma_grams_of_part(subs, (n - 1) as nat, i);
        assert forall|gram: Seq<u8>| #[trigger] grams_in(subs[i]).contains(gram) implies all.contains(
            gram,
        ) by {
            let k = choose|k: int| 0 <= k < before.len() && before[k] == gram;
            assert(all[k] == gram);
        }
    } else {
        assert forall|gram: Seq<u8>| #[trigger] own.contains(gram) implies all.contains(gram) by {
            let k = choose|k: int| 0 <= k < own.len() && own[k] == gram;
            assert(all[before.len() + k] == gram);
        }
    }
}

/// The grams that are looked up for a query are all that decide it: two documents that agree on them
/// are both candidates or both none.
pub proof fn gathered_grams_decide_the_query(
    tree: QueryTree,
    one: spec_fn(Seq<u8>) -> bool,
    other: spec_fn(Seq<u8>) -> bool,
)
    requires
        agree_on(grams_in(tree), one, other),
    ensures
        crate::query::tree_holds(tree, one) == crate::query::tree_holds(tree, other),
    decreases tree,
{
    match tree {
        QueryTree::All => {},
        QueryTree::Gram(gram) => {
            assert(grams_in(tree)[0] == gram);
        },
        QueryTree::And(subs) => {
            assert forall|i: int| 0 <= i < subs.len() implies crate::query::tree_holds(
                #[trigger] subs[i],
                one,
            ) == crate::query::tree_holds(subs[i], other) by {
                lemma_part_agrees(subs, i, one, other);
                gathered_grams_decide_the_query(subs[i], one, other);
            }
        },
        QueryTree::Or(subs) => {
            assert forall|i: int| 0 <= i < subs.len() implies crate::query::tree_holds(
                #[trigger] subs[i],
                one,
            ) == crate::query::tree_holds(subs[i], other) by {
                lemma_part_agrees(subs, i, one, other);
                gathered_grams_decide_the_query(subs[i], one, other);
            }
        },
    }
}

proof fn lemma_part_agrees(
    subs: Seq<QueryTree>,
    i: int,
    one: spec_fn(Seq<u8>) -> bool,
    other: spec_fn(Seq<u8>) -> bool,
)
    requires
        0 <= i < subs.len(),
        agree_on(grams_in_first(subs, subs.len()), one, other),
    ensures
        agree_on(grams_in(subs[i]), one, other),
{
    lemma_grams_of_part(subs, subs.len(), i);
    let own = grams_in(subs[i]);
    let all = grams_in_first(subs, subs.len());
    assert forall|k: int| 0 <= k < own.len() implies one(#[trigger] own[k]) == other(own[k]) by {
        assert(own.contains(own[k]));
        let m = choose|m: int| 0 <= m < all.len() && all[m] == own[k];
        assert(one(all[m]) == other(all[m]));
    }
}

} // verus!
