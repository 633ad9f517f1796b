//! Reading term dictionaries: opening one, looking grams up, and walking it.

use vstd::prelude::*;

use crate::bits::put_u64_be;
use crate::error::IndexError;
use crate::eval::TermLookup;
use crate::eval::TermValue;
use crate::postings::write_postings;
use crate::postings::GramList;
use crate::query::Strategy;
use crate::sparse_table::SparseTableIndex;
use crate::terms::can_open_map;
use crate::terms::get_sparse;
use crate::terms::map_entries;
use crate::terms::map_get;
use crate::terms::map_len;
use crate::terms::open_shards;
use crate::terms::shard_key;
use crate::terms::sparse_entries;
use crate::terms::TermBuilder;
use crate::terms::TermEntry;
use crate::terms::TRIGRAM_SHARDS;

verus! {

/// How a dictionary is read; its bytes are kept apart.
#[derive(Debug)]
pub enum TermMap {
    /// One map of grams.
    Single,
    /// A map of grams for each first byte, and where each lies.
    Shards(Vec<(usize, usize)>),
    /// A table by gram hash.
    Sparse(SparseTableIndex),
}

/// What a lookup of `key` among entries gives: a value that it has there, or nothing where it has
/// none.
pub open spec fn found_in(
    entries: Seq<(Seq<u8>, u64)>,
    key: Seq<u8>,
    found: Option<u64>,
) -> bool {
    match found {
        Some(value) => entries.contains((key, value)),
        None => forall|i: int| 0 <= i < entries.len() ==> (#[trigger] entries[i]).0 != key,
    }
}

/// The map of shard `s`.
pub open spec fn shard_bytes(bytes: Seq<u8>, s: int) -> Seq<u8> {
    bytes.subrange(
        crate::terms::shard_range(bytes, s).0,
        crate::terms::shard_range(bytes, s).1,
    )
}

/// The terms of shard `s`: its keys behind its byte.
pub open spec fn shard_terms(bytes: Seq<u8>, s: int) -> Seq<(Seq<u8>, u64)> {
    crate::terms::fst_entries(shard_bytes(bytes, s))->0.map_values(
        |entry: (Seq<u8>, u64)| (seq![s as u8] + entry.0, entry.1),
    )
}

/// The terms of the first `n` shards.
pub open spec fn joined_terms(bytes: Seq<u8>, n: int) -> Seq<(Seq<u8>, u64)>
    decreases n,
{
    if n <= 0 {
        Seq::empty()
    } else {
        joined_terms(bytes, n - 1) + shard_terms(bytes, n - 1)
    }
}

/// How many terms the first `n` shards have.
pub open spec fn joined_len(bytes: Seq<u8>, n: int) -> nat
    decreases n,
{
    if n <= 0 {
        0
    } else {
        joined_len(bytes, n - 1) + crate::terms::fst_entries(shard_bytes(bytes, n - 1))->0.len()
    }
}

/// The terms of a table: the hashes' bytes, the most significant first.
pub open spec fn hash_terms(items: Seq<(u64, u64)>) -> Seq<(Seq<u8>, u64)> {
    items.map_values(
        |item: (u64, u64)| (crate::bits::be_bytes(item.0 as nat, 8), item.1),
    )
}

/// The terms are trigrams.
pub open spec fn grams_whole(terms: Seq<(Seq<u8>, u64)>) -> bool {
    forall|i: int| 0 <= i < terms.len() ==> (#[trigger] terms[i]).0.len() == 3
}

/// The first `n` shards open as maps.
pub open spec fn shards_open(bytes: Seq<u8>, n: int) -> bool {
    forall|s: int| 0 <= s < n ==> crate::terms::map_readable(#[trigger] shard_bytes(bytes, s))
}

impl TermMap {
    /// The dictionary with these bytes is read this way.
    pub open spec fn reads(&self, bytes: Seq<u8>) -> bool {
        match self {
            TermMap::Single => !crate::terms::is_sharded(bytes) && crate::terms::map_readable(bytes),
            TermMap::Shards(ranges) => {
                &&& crate::terms::is_sharded(bytes)
                &&& bytes.len() >= 8 + crate::terms::TRIGRAM_FOOTER_LEN
                &&& crate::terms::offsets_valid(bytes)
                &&& ranges@.len() == TRIGRAM_SHARDS
                &&& forall|k: int|
                    0 <= k < TRIGRAM_SHARDS ==> crate::terms::shard_range(bytes, k) == (
                        (#[trigger] ranges@[k]).0 as int,
                        ranges@[k].1 as int,
                    ) && ranges@[k].0 < ranges@[k].1 <= bytes.len()
                &&& shards_open(bytes, TRIGRAM_SHARDS as int)
            },
            TermMap::Sparse(index) => index.wf() && crate::sparse_table::table_index(
                bytes.len(),
                bytes,
            ) == Ok::<(nat, Seq<crate::sparse_table::BlockView>), IndexError>(
                (index.entry_count as nat, crate::sparse_table::block_views(index.blocks@)),
            ),
        }
    }

    /// The maps of the dictionary are maps.
    pub open spec fn spells(&self, bytes: Seq<u8>) -> bool {
        match self {
            TermMap::Single => crate::terms::fst_entries(bytes) is Some,
            TermMap::Shards(_) => forall|s: int|
                0 <= s < TRIGRAM_SHARDS ==> crate::terms::fst_entries(
                    #[trigger] shard_bytes(bytes, s),
                ) is Some,
            TermMap::Sparse(_) => true,
        }
    }

    /// Open a dictionary. Bytes that are no map, or not the maps that they should be, are refused.
    pub fn open(bytes: &[u8], strategy: Strategy) -> (opened: Result<TermMap, IndexError>)
        ensures
            match opened {
                Ok(map) => map.reads(bytes@) && (map is Sparse <==> strategy == Strategy::Sparse),
                Err(e) => match strategy {
                    Strategy::Sparse => crate::sparse_table::table_index(
                        bytes@.len(),
                        bytes@,
                    ) == Err::<(nat, Seq<crate::sparse_table::BlockView>), IndexError>(e),
                    Strategy::Trigram => if !crate::terms::is_sharded(bytes@) {
                        !crate::terms::map_readable(bytes@) && e == IndexError::NotAMap
                    } else if bytes@.len() < 8 + crate::terms::TRIGRAM_FOOTER_LEN {
                        e == IndexError::ShardFooter
                    } else if !crate::terms::offsets_valid(bytes@) {
                        e == IndexError::ShardOffsets
                    } else {
                        !shards_open(bytes@, TRIGRAM_SHARDS as int) && e == IndexError::NotAMap
                    },
                },
            },
    {
        match strategy {
            Strategy::Sparse => match SparseTableIndex::parse(bytes.len() as u64, bytes) {
                Ok(index) => Ok(TermMap::Sparse(index)),
                Err(e) => Err(e),
            },
            Strategy::Trigram => match open_shards(bytes) {
                Ok(None) => if can_open_map(bytes) {
                    Ok(TermMap::Single)
                } else {
                    Err(IndexError::NotAMap)
                },
                Ok(Some(ranges)) => {
                    let mut s: usize = 0;
                    while s < TRIGRAM_SHARDS
                        invariant
                            s <= TRIGRAM_SHARDS,
                            ranges@.len() == TRIGRAM_SHARDS,
                            crate::terms::is_sharded(bytes@),
                            bytes@.len() >= 8 + crate::terms::TRIGRAM_FOOTER_LEN,
                            crate::terms::offsets_valid(bytes@),
                            forall|k: int|
                                0 <= k < TRIGRAM_SHARDS ==> crate::terms::shard_range(bytes@, k) == (
                                    (#[trigger] ranges@[k]).0 as int,
                                    ranges@[k].1 as int,
                                ) && ranges@[k].0 < ranges@[k].1 <= bytes@.len(),
                            shards_open(bytes@, s as int),
                            strategy == Strategy::Trigram,
                        decreases TRIGRAM_SHARDS - s,
                    {
                        let (start, end): (usize, usize) = ranges[s];
                        assert(crate::terms::shard_range(bytes@, s as int) == (
                            ranges@[s as int].0 as int,
                            ranges@[s as int].1 as int,
                        ));
                        let part = vstd::slice::slice_subrange(bytes, start, end);
                        assert(part@ == shard_bytes(bytes@, s as int));
                        if !can_open_map(part) {
                            return Err(IndexError::NotAMap);
                        }
                        s = s + 1;
                    }
                    Ok(TermMap::Shards(ranges))
                },
                Err(e) => Err(e),
            },
        }
    }

    /// Look a gram up; `hash` is its hash, by which a table is searched. What cannot be read is an
    /// error, never an absent gram.
    pub fn get(&self, bytes: &[u8], gram: &[u8], hash: u64) -> (found: Result<
        Option<u64>,
        IndexError,
    >)
        requires
            self.reads(bytes@),
            self.spells(bytes@),
        ensures
            match self {
                TermMap::Single => found matches Ok(value) && found_in(
                    crate::terms::fst_entries(bytes@)->0,
                    gram@,
                    value,
                ),
                TermMap::Shards(_) => found matches Ok(value) && if gram@.len() == 3 {
                    found_in(
                        crate::terms::fst_entries(shard_bytes(bytes@, gram@[0] as int))->0,
                        gram@.skip(1),
                        value,
                    )
                } else {
                    value is None
                },
                TermMap::Sparse(index) => found == crate::terms::table_value(
                    *index,
                    bytes@,
                    hash,
                ),
            },
    {
        match self {
            TermMap::Single => Ok(map_get(bytes, gram)),
            TermMap::Shards(ranges) => match shard_key(gram) {
                None => Ok(None),
                Some((shard, suffix)) => {
                    let (start, end): (usize, usize) = ranges[shard];
                    assert(ranges@[shard as int] == (start, end));
                    let part = vstd::slice::slice_subrange(bytes, start, end);
                    assert(part@ == shard_bytes(bytes@, shard as int));
                    Ok(map_get(part, vstd::array::array_as_slice(&suffix)))
                },
            },
            TermMap::Sparse(index) => get_sparse(index, bytes, hash),
        }
    }

    /// How many terms the dictionary has; nothing where that is more than can be said.
    pub fn len(&self, bytes: &[u8]) -> (len: Option<u64>)
        requires
            self.reads(bytes@),
            self.spells(bytes@),
        ensures
            ({
                let count: nat = match self {
                    TermMap::Single => crate::terms::fst_entries(bytes@)->0.len(),
                    TermMap::Shards(_) => joined_len(bytes@, TRIGRAM_SHARDS as int),
                    TermMap::Sparse(index) => index.entry_count as nat,
                };
                match len {
                    Some(len) => len == count,
                    None => count > u64::MAX,
                }
            }),
    {
        match self {
            TermMap::Single => Some(map_len(bytes) as u64),
            TermMap::Sparse(index) => Some(index.entry_count),
            TermMap::Shards(ranges) => {
                let mut total: u64 = 0;
                let mut s: usize = 0;
                while s < TRIGRAM_SHARDS
                    invariant
                        s <= TRIGRAM_SHARDS,
                        self == TermMap::Shards(*ranges),
                        self.reads(bytes@),
                        self.spells(bytes@),
                        total == joined_len(bytes@, s as int),
                    decreases TRIGRAM_SHARDS - s,
                {
                    let (start, end): (usize, usize) = ranges[s];
                    assert(ranges@[s as int] == (start, end));
                    let part = vstd::slice::slice_subrange(bytes, start, end);
                    assert(part@ == shard_bytes(bytes@, s as int));
                    match total.checked_add(map_len(part) as u64) {
                        Some(sum) => {
                            total = sum;
                        },
                        None => {
                            proof {
                                lemma_joined_grows(bytes@, s + 1, TRIGRAM_SHARDS as int);
                            }
                            return None;
                        },
                    }
                    s = s + 1;
                }
                Some(total)
            },
        }
    }

    /// All terms of the dictionary, in order; a term of a table is its hash, the most significant
    /// byte first.
    pub fn entries(&self, bytes: &[u8]) -> (entries: Result<Vec<TermEntry>, IndexError>)
        requires
            self.reads(bytes@),
            self.spells(bytes@),
        ensures
            match self {
                TermMap::Single => entries matches Ok(list) && crate::terms::fst_entries(bytes@)
                    == Some(crate::terms::entry_views(list@)),
                TermMap::Shards(_) => match entries {
                    Ok(list) => grams_whole(joined_terms(bytes@, TRIGRAM_SHARDS as int))
                        && crate::terms::entry_views(list@) == joined_terms(
                        bytes@,
                        TRIGRAM_SHARDS as int,
                    ),
                    Err(e) => e == IndexError::SuffixLength && !grams_whole(
                        joined_terms(bytes@, TRIGRAM_SHARDS as int),
                    ),
                },
                TermMap::Sparse(index) => match entries {
                    Ok(list) => crate::terms::entry_views(list@) == hash_terms(
                        crate::terms::table_items(*index, bytes@, index.blocks@.len() as int),
                    ) && forall|k: int|
                        0 <= k < index.blocks@.len() ==> #[trigger] crate::terms::block_fault(
                            *index,
                            bytes@,
                            k,
                        ) is None,
                    Err(e) => exists|k: int|
                        0 <= k < index.blocks@.len() && #[trigger] crate::terms::block_fault(
                            *index,
                            bytes@,
                            k,
                        ) == Some(e) && forall|j: int|
                            0 <= j < k ==> #[trigger] crate::terms::block_fault(
                                *index,
                                bytes@,
                                j,
                            ) is None,
                },
            },
    {
        match self {
            TermMap::Single => Ok(map_entries(bytes)),
            TermMap::Shards(ranges) => {
                let mut all: Vec<TermEntry> = Vec::new();
                let mut s: usize = 0;
                assert(crate::terms::entry_views(all@) =~= joined_terms(bytes@, 0));
                while s < TRIGRAM_SHARDS
                    invariant
                        s <= TRIGRAM_SHARDS,
                        self == TermMap::Shards(*ranges),
                        self.reads(bytes@),
                        self.spells(bytes@),
                        crate::terms::entry_views(all@) == joined_terms(bytes@, s as int),
                        grams_whole(joined_terms(bytes@, s as int)),
                    decreases TRIGRAM_SHARDS - s,
                {
                    let (start, end): (usize, usize) = ranges[s];
                    assert(ranges@[s as int] == (start, end));
                    let part = vstd::slice::slice_subrange(bytes, start, end);
                    assert(part@ == shard_bytes(bytes@, s as int));
                    let held = map_entries(part);
                    let ghost before = crate::terms::entry_views(all@);
                    let ghost terms = shard_terms(bytes@, s as int);
                    let mut i: usize = 0;
                    assert(before + terms.take(0) =~= before);
                    while i < held.len()
                        invariant
                            i <= held.len(),
                            s < TRIGRAM_SHARDS,
                            terms == shard_terms(bytes@, s as int),
                            crate::terms::fst_entries(shard_bytes(bytes@, s as int)) == Some(
                                crate::terms::entry_views(held@),
                            ),
                            crate::terms::entry_views(all@) == before + terms.take(i as int),
                            before == joined_terms(bytes@, s as int),
                            grams_whole(before),
                            forall|k: int| 0 <= k < i ==> (#[trigger] terms[k]).0.len() == 3,
                            self == TermMap::Shards(*ranges),
                        decreases held.len() - i,
                    {
                        if held[i].0.len() != 2 {
                            proof {
                                let joined = joined_terms(bytes@, s + 1);
                                let whole = joined_terms(bytes@, TRIGRAM_SHARDS as int);
                                assert(crate::terms::entry_views(held@)[i as int].0
                                    == held@[i as int].0@);
                                assert(terms[i as int].0 == seq![s as u8] + held@[i as int].0@);
                                assert(joined == before + terms);
                                assert(joined[before.len() + i] == terms[i as int]);
                                lemma_joined_prefix(
                                    bytes@,
                                    s + 1,
                                    TRIGRAM_SHARDS as int,
                                    before.len() + i,
                                );
                                assert(whole[before.len() + i].0.len() != 3);
                            }
                            return Err(IndexError::SuffixLength);
                        }
                        let mut key: Vec<u8> = Vec::new();
                        key.push(s as u8);
                        key.extend_from_slice(held[i].0.as_slice());
                        let value: u64 = held[i].1;
                        let ghost shown = crate::terms::entry_views(all@);
                        all.push((key, value));
                        proof {
                            assert(terms.len() == held@.len());
                            assert(crate::terms::entry_views(held@)[i as int] == (
                                held@[i as int].0@,
                                held@[i as int].1,
                            ));
                            assert(key@ =~= seq![s as u8] + held@[i as int].0@);
                            assert(terms[i as int] == (key@, value));
                            assert(crate::terms::entry_views(all@) =~= shown.push((key@, value)));
                            assert(terms.take(i + 1) =~= terms.take(i as int).push(
                                terms[i as int],
                            ));
                            assert(crate::terms::entry_views(all@) =~= before + terms.take(i + 1));
                        }
                        i = i + 1;
                    }
                    proof {
                        assert(terms.len() == held@.len());
                        assert(terms.take(i as int) =~= terms);
                        let joined = joined_terms(bytes@, s + 1);
                        assert(joined == before + terms);
                        assert forall|k: int| 0 <= k < joined.len() implies (
                        #[trigger] joined[k]).0.len() == 3 by {
                            if k < before.len() {
                                assert(joined[k] == before[k]);
                            } else {
                                assert(joined[k] == terms[k - before.len()]);
                            }
                        }
                    }
                    s = s + 1;
                }
                Ok(all)
            },
            TermMap::Sparse(index) => {
                let items = match sparse_entries(index, bytes) {
                    Ok(items) => items,
                    Err(e) => return Err(e),
                };
                let mut all: Vec<TermEntry> = Vec::new();
                let mut i: usize = 0;
                while i < items.len()
                    invariant
                        i <= items.len(),
                        crate::terms::entry_views(all@) == hash_terms(items@.take(i as int)),
                    decreases items.len() - i,
                {
                    let mut key: Vec<u8> = Vec::new();
                    put_u64_be(&mut key, items[i].0);
                    let value: u64 = items[i].1;
                    let ghost shown = crate::terms::entry_views(all@);
                    all.push((key, value));
                    proof {
                        assert(key@ =~= crate::bits::be_bytes(items@[i as int].0 as nat, 8));
                        assert(crate::terms::entry_views(all@) =~= shown.push((key@, value)));
                        assert(hash_terms(items@.take(i + 1)) =~= hash_terms(
                            items@.take(i as int),
                        ).push((key@, value)));
                    }
                    i = i + 1;
                }
                assert(items@.take(i as int) =~= items@);
                Ok(all)
            },
        }
    }
}

/// The terms of the first shards come first.
proof fn lemma_joined_prefix(bytes: Seq<u8>, a: int, b: int, i: int)
    requires
        a <= b,
        0 <= i < joined_terms(bytes, a).len(),
    ensures
        i < joined_terms(bytes, b).len(),
        joined_terms(bytes, b)[i] == joined_terms(bytes, a)[i],
    decreases b - a,
{
    if a < b {
        lemma_joined_prefix(bytes, a, b - 1, i);
    }
}

proof fn lemma_joined_grows(bytes: Seq<u8>, a: int, b: int)
    requires
        a <= b,
    ensures
        joined_len(bytes, a) <= joined_len(bytes, b),
    decreases b - a,
{
    if a < b {
        lemma_joined_grows(bytes, a, b - 1);
    }
}

/// The terms of a gram dictionary that is being built.
pub open spec fn gram_terms(builder: TermBuilder) -> Seq<(Seq<u8>, u64)> {
    match builder {
        TermBuilder::Single(entries) => crate::terms::entry_views(entries@),
        TermBuilder::Trigram(builder) => builder@,
        TermBuilder::Sparse(_) => Seq::empty(),
    }
}

/// `bytes` are a finished gram dictionary of the builder's terms.
pub open spec fn gram_dictionary(builder: TermBuilder, bytes: Seq<u8>) -> bool {
    match builder {
        TermBuilder::Single(entries) => crate::terms::fst_entries(bytes) == Some(
            crate::terms::entry_views(entries@),
        ) && crate::terms::map_readable(bytes) && !crate::terms::is_sharded(bytes),
        TermBuilder::Trigram(builder) => crate::terms::is_trigram_file(bytes, builder@),
        TermBuilder::Sparse(_) => false,
    }
}

/// What a lookup in a dictionary of grams may give.
pub open spec fn gram_found(
    map: TermMap,
    bytes: Seq<u8>,
    gram: Seq<u8>,
    found: Option<u64>,
) -> bool {
    match map {
        TermMap::Single => found_in(crate::terms::fst_entries(bytes)->0, gram, found),
        TermMap::Shards(_) => if gram.len() == 3 {
            found_in(
                crate::terms::fst_entries(shard_bytes(bytes, gram[0] as int))->0,
                gram.skip(1),
                found,
            )
        } else {
            found is None
        },
        TermMap::Sparse(_) => false,
    }
}

/// A finished gram dictionary can be read: opened, its maps are maps.
pub proof fn written_dictionaries_spell(builder: TermBuilder, bytes: Seq<u8>, map: TermMap)
    requires
        builder.wf(),
        gram_dictionary(builder, bytes),
        bytes.len() <= u64::MAX,
        map.reads(bytes),
        !(map is Sparse),
    ensures
        map.spells(bytes),
        map is Single <==> builder is Single,
{
    if let TermBuilder::Trigram(inner) = builder {
        assert forall|s: int| 0 <= s < TRIGRAM_SHARDS implies crate::terms::fst_entries(
            #[trigger] shard_bytes(bytes, s),
        ) is Some by {
            crate::terms::written_shards_open(bytes, inner@, s);
        }
        crate::terms::written_shards_open(bytes, inner@, 0);
    }
}

/// A lookup in a finished gram dictionary finds exactly what was inserted: the value that a gram
/// was inserted with, and nothing for a gram that was not.
pub proof fn written_terms_are_found(
    builder: TermBuilder,
    bytes: Seq<u8>,
    map: TermMap,
    gram: Seq<u8>,
    found: Option<u64>,
)
    requires
        builder.wf(),
        gram_dictionary(builder, bytes),
        bytes.len() <= u64::MAX,
        map.reads(bytes),
        gram_found(map, bytes, gram, found),
    ensures
        found_in(gram_terms(builder), gram, found),
{
    written_dictionaries_spell(builder, bytes, map);
    if let TermBuilder::Trigram(inner) = builder {
        let written = inner@;
        let n = written.len() as int;
        if gram.len() == 3 {
            let shard = gram[0] as int;
            crate::terms::written_shards_open(bytes, written, shard);
            let held = crate::terms::shard_entries(written, n, shard);
            match found {
                Some(value) => {
                    crate::terms::written_trigrams_lie_in_their_shards(
                        written,
                        n,
                        shard,
                        gram.skip(1),
                        value,
                    );
                    let k = choose|k: int|
                        0 <= k < n && (#[trigger] written[k]).0[0] == shard && written[k].0.skip(1)
                            == gram.skip(1) && written[k].1 == value;
                    lemma_same_gram(written[k].0, gram);
                    assert(written[k] == (gram, value));
                },
                None => {
                    assert forall|k: int| 0 <= k < n implies (#[trigger] written[k]).0 != gram by {
                        if written[k].0 == gram {
                            crate::terms::written_trigrams_lie_in_their_shards(
                                written,
                                n,
                                shard,
                                gram.skip(1),
                                written[k].1,
                            );
                            assert(held.contains((gram.skip(1), written[k].1)));
                            let j = choose|j: int|
                                0 <= j < held.len() && held[j] == (gram.skip(1), written[k].1);
                            assert(held[j].0 == gram.skip(1));
                        }
                    }
                },
            }
        } else {
            assert forall|k: int| 0 <= k < n implies (#[trigger] written[k]).0 != gram by {
                assert(written[k].0.len() == 3);
            }
        }
    }
}

proof fn lemma_same_gram(a: Seq<u8>, b: Seq<u8>)
    requires
        a.len() == 3,
        b.len() == 3,
        a[0] == b[0],
        a.skip(1) == b.skip(1),
    ensures
        a == b,
{
    assert(a.skip(1)[0] == b.skip(1)[0] && a.skip(1)[1] == b.skip(1)[1]);
    assert(a =~= b);
}

/// The terms before shard `s`, behind each other.
proof fn lemma_shards_join(bytes: Seq<u8>, written: Seq<(Seq<u8>, u64)>, s: int, n: int)
    requires
        crate::terms::trigrams_ascend(written),
        crate::terms::is_trigram_file(bytes, written),
        bytes.len() <= u64::MAX,
        0 <= s <= TRIGRAM_SHARDS,
        0 <= n <= written.len(),
        forall|k: int| 0 <= k < n ==> (#[trigger] written[k]).0[0] < s,
        forall|k: int| n <= k < written.len() ==> (#[trigger] written[k]).0[0] >= s,
    ensures
        joined_terms(bytes, s) == written.take(n),
    decreases s,
{
    if s == 0 {
        if n > 0 {
            assert(written[0].0[0] < 0);
        }
        assert(written.take(0) =~= Seq::<(Seq<u8>, u64)>::empty());
    } else {
        let m = lemma_shard_start(written, s - 1, n);
        lemma_shards_join(bytes, written, s - 1, m);
        crate::terms::written_shards_open(bytes, written, s - 1);
        lemma_shard_run(written, s - 1, m, n);
        let terms = shard_terms(bytes, s - 1);
        assert(terms =~= written.subrange(m, n)) by {
            let held = crate::terms::shard_entries(written, written.len() as int, s - 1);
            assert(held.len() == n - m);
            assert forall|k: int| 0 <= k < n - m implies terms[k] == written[m + k] by {
                assert(held[k] == (written[m + k].0.skip(1), written[m + k].1));
                assert(written[m + k].0.len() == 3);
                assert(seq![(s - 1) as u8] + written[m + k].0.skip(1) =~= written[m + k].0);
            }
        }
        assert(written.take(n) =~= written.take(m) + written.subrange(m, n));
    }
}

/// Where the terms of shard `s` start.
proof fn lemma_shard_start(written: Seq<(Seq<u8>, u64)>, s: int, n: int) -> (m: int)
    requires
        crate::terms::trigrams_ascend(written),
        0 <= n <= written.len(),
        forall|k: int| 0 <= k < n ==> (#[trigger] written[k]).0[0] <= s,
        forall|k: int| n <= k < written.len() ==> (#[trigger] written[k]).0[0] > s,
    ensures
        0 <= m <= n,
        forall|k: int| 0 <= k < m ==> (#[trigger] written[k]).0[0] < s,
        forall|k: int| m <= k < n ==> (#[trigger] written[k]).0[0] == s,
        forall|k: int| m <= k < written.len() ==> (#[trigger] written[k]).0[0] >= s,
{
    lemma_run_start(written, s, n, n)
}

proof fn lemma_run_start(written: Seq<(Seq<u8>, u64)>, s: int, n: int, m: int) -> (start: int)
    requires
        crate::terms::trigrams_ascend(written),
        0 <= m <= n <= written.len(),
        forall|k: int| 0 <= k < n ==> (#[trigger] written[k]).0[0] <= s,
        forall|k: int| m <= k < n ==> (#[trigger] written[k]).0[0] == s,
        forall|k: int| n <= k < written.len() ==> (#[trigger] written[k]).0[0] > s,
    ensures
        0 <= start <= n,
        forall|k: int| 0 <= k < start ==> (#[trigger] written[k]).0[0] < s,
        forall|k: int| start <= k < n ==> (#[trigger] written[k]).0[0] == s,
        forall|k: int| start <= k < written.len() ==> (#[trigger] written[k]).0[0] >= s,
    decreases m,
{
    if m > 0 && written[m - 1].0[0] == s {
        lemma_run_start(written, s, n, m - 1)
    } else {
        assert forall|k: int| 0 <= k < m implies (#[trigger] written[k]).0[0] < s by {
            if k < m - 1 {
                assert(crate::text::bytes_before(written[k].0, written[m - 1].0));
                assert(written[k].0.len() == 3 && written[m - 1].0.len() == 3);
            }
        }
        m
    }
}

/// The entries of a shard are the terms of its run.
proof fn lemma_shard_run(written: Seq<(Seq<u8>, u64)>, s: int, m: int, n: int)
    requires
        0 <= m <= n <= written.len(),
        forall|k: int| 0 <= k < m ==> (#[trigger] written[k]).0[0] != s,
        forall|k: int| m <= k < n ==> (#[trigger] written[k]).0[0] == s,
        forall|k: int| n <= k < written.len() ==> (#[trigger] written[k]).0[0] != s,
    ensures
        ({
            let held = crate::terms::shard_entries(written, written.len() as int, s);
            &&& held.len() == n - m
            &&& forall|k: int|
                0 <= k < n - m ==> #[trigger] held[k] == (
                    written[m + k].0.skip(1),
                    written[m + k].1,
                )
        }),
{
    lemma_shard_prefix(written, s, m, n, written.len() as int);
}

proof fn lemma_shard_prefix(written: Seq<(Seq<u8>, u64)>, s: int, m: int, n: int, i: int)
    requires
        0 <= m <= n <= written.len(),
        0 <= i <= written.len(),
        forall|k: int| 0 <= k < m ==> (#[trigger] written[k]).0[0] != s,
        forall|k: int| m <= k < n ==> (#[trigger] written[k]).0[0] == s,
        forall|k: int| n <= k < written.len() ==> (#[trigger] written[k]).0[0] != s,
    ensures
        ({
            let held = crate::terms::shard_entries(written, i, s);
            &&& held.len() == if i <= m {
                0
            } else if i <= n {
                i - m
            } else {
                n - m
            }
            &&& forall|k: int|
                0 <= k < held.len() ==> #[trigger] held[k] == (
                    written[m + k].0.skip(1),
                    written[m + k].1,
                )
        }),
    decreases i,
{
    if i > 0 {
        lemma_shard_prefix(written, s, m, n, i - 1);
        assert(written[i - 1].0[0] == s <==> m <= i - 1 < n);
    }
}

/// Walking a finished gram dictionary gives what was inserted, in order.
pub proof fn written_terms_are_walked(builder: TermBuilder, bytes: Seq<u8>, map: TermMap)
    requires
        builder.wf(),
        gram_dictionary(builder, bytes),
        bytes.len() <= u64::MAX,
        map.reads(bytes),
        !(map is Sparse),
    ensures
        gram_terms(builder) == match map {
            TermMap::Single => crate::terms::fst_entries(bytes)->0,
            _ => joined_terms(bytes, TRIGRAM_SHARDS as int),
        },
{
    written_dictionaries_spell(builder, bytes, map);
    if let TermBuilder::Trigram(inner) = builder {
        let written = inner@;
        lemma_shards_join(bytes, written, TRIGRAM_SHARDS as int, written.len() as int);
        assert(written.take(written.len() as int) =~= written);
    }
}

/// What keeps terms, from term `i` on, out of a gram dictionary.
pub open spec fn first_refusal(
    terms: Seq<(Seq<u8>, u64)>,
    sharded: bool,
    i: int,
) -> Option<IndexError>
    decreases terms.len() - i,
{
    if i >= terms.len() {
        None
    } else if sharded && terms[i].0.len() != 3 {
        Some(IndexError::TrigramLength)
    } else if i > 0 && !crate::text::bytes_before(terms[i - 1].0, terms[i].0) {
        Some(IndexError::TermOrder)
    } else {
        first_refusal(terms, sharded, i + 1)
    }
}

/// A gram dictionary at hand in memory: written, opened, and answering for its terms.
pub struct GramDictionary {
    bytes: Vec<u8>,
    map: TermMap,
    builder: Ghost<TermBuilder>,
}

impl View for GramDictionary {
    type V = Seq<(Seq<u8>, u64)>;

    /// The terms and their values, in order.
    closed spec fn view(&self) -> Seq<(Seq<u8>, u64)> {
        gram_terms(self.builder@)
    }
}

impl GramDictionary {
    #[verifier::type_invariant]
    spec fn inv(self) -> bool {
        &&& self.builder@.wf()
        &&& gram_dictionary(self.builder@, self.bytes@)
        &&& self.map.reads(self.bytes@)
        &&& !(self.map is Sparse)
    }

    /// Write terms, which must ascend, as one map or as one for each first byte.
    pub fn build(terms: &[TermEntry], sharded: bool) -> (built: Result<GramDictionary, IndexError>)
        ensures
            match built {
                Ok(dictionary) => first_refusal(crate::terms::entry_views(terms@), sharded, 0) is None
                    && dictionary@ == crate::terms::entry_views(terms@),
                Err(e) => first_refusal(crate::terms::entry_views(terms@), sharded, 0) == Some(e),
            },
    {
        let ghost views = crate::terms::entry_views(terms@);
        let mut builder = match TermBuilder::new(Strategy::Trigram, sharded) {
            Ok(builder) => builder,
            Err(e) => return Err(e),
        };
        let mut i: usize = 0;
        assert(gram_terms(builder) =~= views.take(0));
        while i < terms.len()
            invariant
                i <= terms.len(),
                views == crate::terms::entry_views(terms@),
                builder.wf(),
                if sharded {
                    builder is Trigram
                } else {
                    builder is Single
                },
                gram_terms(builder) == views.take(i as int),
                first_refusal(views, sharded, 0) == first_refusal(views, sharded, i as int),
            decreases terms.len() - i,
        {
            assert(views[i as int] == (terms@[i as int].0@, terms@[i as int].1));
            let ghost before = gram_terms(builder);
            proof {
                if i > 0 {
                    assert(before.last() == views[i - 1]);
                    if builder is Single {
                        assert(crate::terms::entry_views(builder->Single_0@).last().0
                            == builder->Single_0@.last().0@);
                    }
                }
            }
            match builder.insert(terms[i].0.as_slice(), terms[i].1) {
                Ok(_) => {},
                Err(e) => return Err(e),
            }
            proof {
                let after = gram_terms(builder);
                assert(after == before.push(views[i as int]));
                assert(after =~= views.take(i + 1));
                if i > 0 {
                    assert(crate::terms::keys_ascend(after));
                    assert(crate::text::bytes_before(after[i - 1].0, after[i as int].0));
                }
            }
            i = i + 1;
        }
        assert(views.take(i as int) =~= views);
        let ghost finished = builder;
        let (bytes, _) = builder.finish();
        assert(bytes@.len() == bytes.len());
        match TermMap::open(bytes.as_slice(), Strategy::Trigram) {
            Ok(map) => {
                Ok(GramDictionary { bytes, map, builder: Ghost(finished) })
            },
            Err(e) => {
                proof {
                    if let TermBuilder::Trigram(inner) = finished {
                        crate::terms::written_shards_open(bytes@, inner@, 0);
                        assert forall|s: int| 0 <= s < TRIGRAM_SHARDS implies crate::terms::map_readable(
                            #[trigger] shard_bytes(bytes@, s),
                        ) by {
                            crate::terms::written_shards_open(bytes@, inner@, s);
                        }
                    }
                    assert(false);
                }
                Err(e)
            },
        }
    }

    /// The value of a gram: that with which it was written.
    pub fn get(&self, gram: &[u8]) -> (found: Option<u64>)
        ensures
            found_in(self@, gram@, found),
    {
        proof {
            use_type_invariant(self);
            assert(self.bytes@.len() == self.bytes.len());
            written_dictionaries_spell(self.builder@, self.bytes@, self.map);
        }
        match self.map.get(self.bytes.as_slice(), gram, 0) {
            Ok(found) => {
                proof {
                    written_terms_are_found(
                        self.builder@,
                        self.bytes@,
                        self.map,
                        gram@,
                        found,
                    );
                }
                found
            },
            Err(_) => None,
        }
    }

    /// How many terms there are.
    pub fn len(&self) -> (len: Option<u64>)
        ensures
            match len {
                Some(len) => len == self@.len(),
                None => self@.len() > u64::MAX,
            },
    {
        proof {
            use_type_invariant(self);
            assert(self.bytes@.len() == self.bytes.len());
            written_dictionaries_spell(self.builder@, self.bytes@, self.map);
            written_terms_are_walked(self.builder@, self.bytes@, self.map);
            lemma_joined_len(self.bytes@, TRIGRAM_SHARDS as int);
        }
        self.map.len(self.bytes.as_slice())
    }

    /// All terms, in order.
    pub fn entries(&self) -> (entries: Vec<TermEntry>)
        ensures
            crate::terms::entry_views(entries@) == self@,
    {
        proof {
            use_type_invariant(self);
            assert(self.bytes@.len() == self.bytes.len());
            written_dictionaries_spell(self.builder@, self.bytes@, self.map);
            written_terms_are_walked(self.builder@, self.bytes@, self.map);
            if self.builder@ is Trigram {
                assert(grams_whole(gram_terms(self.builder@)));
            }
        }
        match self.map.entries(self.bytes.as_slice()) {
            Ok(entries) => entries,
            Err(_) => Vec::new(),
        }
    }

    /// The dictionary's file.
    pub fn into_bytes(self) -> (bytes: Vec<u8>)
        ensures
            exists|builder: TermBuilder|
                builder.wf() && gram_terms(builder) == self@ && #[trigger] gram_dictionary(
                    builder,
                    bytes@,
                ),
    {
        proof {
            use_type_invariant(&self);
        }
        self.bytes
    }
}

proof fn lemma_joined_len(bytes: Seq<u8>, n: int)
    ensures
        joined_terms(bytes, n).len() == joined_len(bytes, n),
    decreases n,
{
    if n > 0 {
        lemma_joined_len(bytes, n - 1);
    }
}

/// The value of a key among entries.
pub open spec fn value_in(entries: Seq<(Seq<u8>, u64)>, key: Seq<u8>) -> Option<u64> {
    if exists|i: int| 0 <= i < entries.len() && (#[trigger] entries[i]).0 == key {
        Some(
            entries[choose|i: int| 0 <= i < entries.len() && (#[trigger] entries[i]).0 == key].1,
        )
    } else {
        None
    }
}

proof fn lemma_value_in(entries: Seq<(Seq<u8>, u64)>, key: Seq<u8>, found: Option<u64>)
    requires
        crate::terms::keys_ascend(entries),
        found_in(entries, key, found),
    ensures
        found == value_in(entries, key),
{
    if let Some(value) = found {
        let k = choose|k: int| 0 <= k < entries.len() && entries[k] == (key, value);
        assert(entries[k].0 == key);
        let i = choose|i: int| 0 <= i < entries.len() && (#[trigger] entries[i]).0 == key;
        if i < k {
            assert(crate::text::bytes_before(entries[i].0, entries[k].0));
        } else if k < i {
            assert(crate::text::bytes_before(entries[k].0, entries[i].0));
        }
        crate::text::lemma_before_irreflexive(key);
    }
}

impl TermLookup for GramDictionary {
    open spec fn value(&self, gram: Seq<u8>) -> Result<Option<TermValue>, IndexError> {
        Ok(
            match value_in(self@, gram) {
                Some(packed) => Some(TermValue { packed, len: None }),
                None => None,
            },
        )
    }

    fn lookup(&self, gram: &[u8]) -> (found: Result<Option<TermValue>, IndexError>) {
        proof {
            use_type_invariant(self);
        }
        let found = self.get(gram);
        proof {
            lemma_value_in(self@, gram@, found);
        }
        match found {
            Some(packed) => Ok(Some(TermValue { packed, len: None })),
            None => Ok(None),
        }
    }
}

/// From this many grams on a dictionary is sharded.
pub const SHARDED_GRAMS: usize = 65536;

/// The terms that lead to lists.
pub open spec fn list_terms(lists: Seq<GramList>, id_space: u32) -> Seq<(Seq<u8>, u64)> {
    Seq::new(
        lists.len(),
        |k: int| (lists[k].gram@, crate::postings::list_value(lists, k, id_space) as u64),
    )
}

/// The dictionary and the postings of a segment.
pub struct SegmentIndex {
    pub dictionary: GramDictionary,
    pub postings: Vec<u8>,
}

/// Write the lists of a segment's trigrams: their blocks, and the dictionary that leads to them.
pub fn write_index(lists: &[GramList], id_space: u32) -> (written: Result<
    SegmentIndex,
    IndexError,
>)
    requires
        crate::joining::lists_ordered(lists@),
        crate::postings::lists_within(lists@, id_space),
        forall|k: int| 0 <= k < lists@.len() ==> (#[trigger] lists@[k]).gram@.len() == 3,
    ensures
        match written {
            Ok(index) => {
                &&& forall|k: int|
                    0 <= k < lists@.len() ==> #[trigger] crate::postings::list_error(
                        lists@,
                        k,
                        id_space,
                    ) is None
                &&& index.dictionary@ == list_terms(lists@, id_space)
                &&& index.postings@ == crate::postings::list_blocks(
                    lists@,
                    lists@.len() as int,
                    id_space,
                )
            },
            Err(e) => exists|k: int|
                0 <= k < lists@.len() && #[trigger] crate::postings::list_error(
                    lists@,
                    k,
                    id_space,
                ) == Some(e) && forall|j: int|
                    0 <= j < k ==> #[trigger] crate::postings::list_error(
                        lists@,
                        j,
                        id_space,
                    ) is None,
        },
{
    let (values, postings): (Vec<u64>, Vec<u8>) = match write_postings(lists, id_space) {
        Ok(written) => written,
        Err(e) => return Err(e),
    };
    let mut terms: Vec<TermEntry> = Vec::new();
    let mut k: usize = 0;
    while k < lists.len()
        invariant
            k <= lists.len(),
            values@.len() == lists@.len(),
            forall|j: int|
                0 <= j < values@.len() ==> #[trigger] values@[j] == crate::postings::list_value(
                    lists@,
                    j,
                    id_space,
                ),
            crate::terms::entry_views(terms@) == list_terms(lists@, id_space).take(k as int),
        decreases lists.len() - k,
    {
        let gram: Vec<u8> = vstd::slice::slice_to_vec(lists[k].gram.as_slice());
        let ghost shown = crate::terms::entry_views(terms@);
        terms.push((gram, values[k]));
        proof {
            assert(crate::terms::entry_views(terms@) =~= shown.push((gram@, values@[k as int])));
            assert(list_terms(lists@, id_space).take(k + 1) =~= list_terms(
                lists@,
                id_space,
            ).take(k as int).push((gram@, values@[k as int])));
        }
        k = k + 1;
    }
    let ghost all = list_terms(lists@, id_space);
    let sharded: bool = lists.len() >= SHARDED_GRAMS;
    proof {
        assert(all.take(k as int) =~= all);
        lemma_lists_insert(lists@, id_space, sharded, 0);
        assert forall|j: int| 0 <= j < lists@.len() implies #[trigger] crate::postings::list_error(
            lists@,
            j,
            id_space,
        ) is None by {
            assert(values@[j] == crate::postings::list_value(lists@, j, id_space));
        }
    }
    match GramDictionary::build(terms.as_slice(), sharded) {
        Ok(dictionary) => Ok(SegmentIndex { dictionary, postings }),
        Err(e) => {
            assert(false);
            Err(e)
        },
    }
}

proof fn lemma_lists_insert(lists: Seq<GramList>, id_space: u32, sharded: bool, i: int)
    requires
        crate::joining::lists_ordered(lists),
        forall|k: int| 0 <= k < lists.len() ==> (#[trigger] lists[k]).gram@.len() == 3,
        0 <= i <= lists.len(),
    ensures
        first_refusal(list_terms(lists, id_space), sharded, i) is None,
    decreases lists.len() - i,
{
    if i < lists.len() {
        assert(lists[i].gram@.len() == 3);
        if i > 0 {
            assert(crate::text::bytes_before(lists[i - 1].gram@, lists[i].gram@));
        }
        lemma_lists_insert(lists, id_space, sharded, i + 1);
    }
}

/// A written dictionary leads to the lists: a lookup of a list's gram gives the list's value.
pub proof fn written_dictionaries_lead_to_lists(
    dictionary: GramDictionary,
    lists: Seq<GramList>,
    id_space: u32,
)
    requires
        crate::joining::lists_ordered(lists),
        dictionary@ == list_terms(lists, id_space),
        forall|k: int|
            0 <= k < lists.len() ==> #[trigger] crate::postings::list_error(
                lists,
                k,
                id_space,
            ) is None,
    ensures
        crate::postings::terms_of(dictionary, lists, id_space),
{
    let terms = list_terms(lists, id_space);
    assert forall|k: int| 0 <= k < lists.len() implies #[trigger] crate::postings::list_found(
        dictionary,
        lists,
        k,
        id_space,
    ) by {
        let key = lists[k].gram@;
        assert(terms[k].0 == key);
        let i = choose|i: int| 0 <= i < terms.len() && (#[trigger] terms[i]).0 == key;
        if i < k {
            assert(crate::text::bytes_before(lists[i].gram@, lists[k].gram@));
        } else if k < i {
            assert(crate::text::bytes_before(lists[k].gram@, lists[i].gram@));
        }
        crate::text::lemma_before_irreflexive(key);
        assert(crate::postings::list_error(lists, k, id_space) is None);
        assert(0 <= crate::postings::list_value(lists, k, id_space) <= u64::MAX);
    }
}

} // verus!
