//! Term dictionaries: grams and the packed postings that they lead to.

use vstd::prelude::*;
use vstd::slice::slice_to_vec;

use crate::bits::put_u64_le;
use crate::bits::read_u64_be;
use crate::bits::read_u64_le;
use crate::error::IndexError;
use crate::query::Strategy;
use crate::remote_terms::tail_hash_of;
use crate::sparse_table::lookup_in_block;
use crate::sparse_table::SparseTableIndex;
use crate::sparse_table::SparseTableWriter;
use crate::text::bytes_eq;
use crate::text::bytes_less;

verus! {

/// How many shards a sharded trigram dictionary has: one for each first byte.
pub const TRIGRAM_SHARDS: usize = 256;

/// Where each shard starts, and where the last one ends.
pub const TRIGRAM_OFFSETS: usize = 257;

/// `SGTERM01`.
pub const TRIGRAM_MAGIC: [u8; 8] = [83, 71, 84, 69, 82, 77, 48, 49];

/// The length of the offsets at the end of a sharded dictionary.
pub const TRIGRAM_FOOTER_LEN: usize = 2056;

/// A key and its value.
pub type TermEntry = (Vec<u8>, u64);

pub open spec fn entry_views(entries: Seq<TermEntry>) -> Seq<(Seq<u8>, u64)> {
    entries.map_values(|entry: TermEntry| (entry.0@, entry.1))
}

/// Keys come in byte order, each once.
pub open spec fn keys_ascend(entries: Seq<(Seq<u8>, u64)>) -> bool {
    forall|i: int, j: int|
        0 <= i < j < entries.len() ==> crate::text::bytes_before(
            (#[trigger] entries[i]).0,
            (#[trigger] entries[j]).0,
        )
}

/// The entries of the `fst` map that bytes spell, in key order; nothing where they spell none.
pub uninterp spec fn fst_entries(bytes: Seq<u8>) -> Option<Seq<(Seq<u8>, u64)>>;

/// Where the fixed fields at the end of a map end: a checksum follows them from version 3 on.
pub open spec fn map_end(bytes: Seq<u8>) -> int {
    if crate::sparse_table::field(bytes, 0) <= 2 {
        bytes.len() as int
    } else {
        bytes.len() - 4
    }
}

/// The bytes are long enough for a map, and of a version that there is.
pub open spec fn map_versioned(bytes: Seq<u8>) -> bool {
    bytes.len() >= 36 && 1 <= crate::sparse_table::field(bytes, 0) <= 3
}

/// The address of the map's root and its number of entries fit the machine's words.
pub open spec fn map_fits(bytes: Seq<u8>) -> bool {
    &&& crate::sparse_table::field(bytes, map_end(bytes) - 8) <= usize::MAX
    &&& crate::sparse_table::field(bytes, map_end(bytes) - 16) <= usize::MAX
}

/// The bytes open as a map: only an empty one has no root, and it has a length of its own.
pub open spec fn map_opens(bytes: Seq<u8>) -> bool {
    &&& map_versioned(bytes)
    &&& crate::sparse_table::field(bytes, map_end(bytes) - 8) != 0 || bytes.len() == 36
        && crate::sparse_table::field(bytes, 0) == 3
}

/// The bytes open as a map on this machine.
pub open spec fn map_readable(bytes: Seq<u8>) -> bool {
    map_opens(bytes) && map_fits(bytes)
}

/// `fst::Map::new`: whether bytes open as a map, which it tells by their length, their version and
/// the address of the root. That an address or a count fits the machine's words is required: where
/// one does not, the call panics.
#[verifier::external_body]
fn open_map(bytes: &[u8]) -> (opens: bool)
    requires
        map_versioned(bytes@) ==> map_fits(bytes@),
    ensures
        opens == map_opens(bytes@),
{
    fst::Map::new(bytes).is_ok()
}

/// Whether bytes open as a map on this machine.
pub fn can_open_map(bytes: &[u8]) -> (can: bool)
    ensures
        can == map_readable(bytes@),
{
    let n: usize = bytes.len();
    if n >= 36 {
        let version: u64 = read_u64_le(bytes, 0);
        if 1 <= version && version <= 3 {
            let end: usize = if version <= 2 { n } else { n - 4 };
            let root: u64 = read_u64_le(bytes, end - 8);
            let count: u64 = read_u64_le(bytes, end - 16);
            if root > usize::MAX as u64 || count > usize::MAX as u64 {
                return false;
            }
        }
    }
    open_map(bytes)
}

/// `fst::Map::from_iter`: bytes that spell the map of `entries`, open as a map here, and whose first
/// byte is that of the format's version; nothing where the keys are not in
/// byte order, each once. Which of the bytes that spell a map come out is not claimed: it varies
/// with the width of the machine's words.
#[verifier::external_body]
fn build_map(entries: &[TermEntry]) -> (bytes: Option<Vec<u8>>)
    ensures
        match bytes {
            Some(bytes) => keys_ascend(entry_views(entries@)) && fst_entries(bytes@) == Some(
                entry_views(entries@),
            ) && map_readable(bytes@) && bytes@[0] == 3,
            None => !keys_ascend(entry_views(entries@)),
        },
{
    let map = fst::Map::from_iter(entries.iter().map(|(key, value)| (key, *value))).ok()?;
    Some(map.into_fst().into_inner())
}

/// `fst::Map::new` and `get`: the value of a key in the map that bytes spell; nothing for a key
/// that the map does not have. Bytes that spell no map are left out: reading them may panic.
#[verifier::external_body]
pub(crate) fn map_get(bytes: &[u8], key: &[u8]) -> (value: Option<u64>)
    requires
        fst_entries(bytes@) is Some,
    ensures
        match value {
            Some(value) => fst_entries(bytes@)->0.contains((key@, value)),
            None => forall|i: int|
                0 <= i < fst_entries(bytes@)->0.len() ==> (#[trigger] fst_entries(bytes@)->0[i]).0
                    != key@,
        },
{
    fst::Map::new(bytes).ok()?.get(key)
}

/// `fst::Map::new`, `stream` and `into_byte_vec`: all entries of the map that bytes spell, in key
/// order.
#[verifier::external_body]
pub(crate) fn map_entries(bytes: &[u8]) -> (entries: Vec<TermEntry>)
    requires
        fst_entries(bytes@) is Some,
    ensures
        fst_entries(bytes@) == Some(entry_views(entries@)),
{
    fst::Map::new(bytes).map(|map| map.stream().into_byte_vec()).unwrap_or_default()
}

/// `fst::Map::new` and `len`: how many entries the map has that bytes spell.
#[verifier::external_body]
pub(crate) fn map_len(bytes: &[u8]) -> (len: usize)
    requires
        fst_entries(bytes@) is Some,
    ensures
        len == fst_entries(bytes@)->0.len(),
{
    fst::Map::new(bytes).map(|map| map.len()).unwrap_or_default()
}

/// What the first `n` entries put into a shard: those that start with its byte, without it.
pub open spec fn shard_entries(
    written: Seq<(Seq<u8>, u64)>,
    n: int,
    shard: int,
) -> Seq<(Seq<u8>, u64)>
    decreases n,
{
    if n <= 0 {
        Seq::empty()
    } else {
        let before = shard_entries(written, n - 1, shard);
        if written[n - 1].0[0] == shard {
            before.push((written[n - 1].0.skip(1), written[n - 1].1))
        } else {
            before
        }
    }
}

/// Each map is that of its shard.
pub open spec fn holds_shards(maps: Seq<Seq<u8>>, written: Seq<(Seq<u8>, u64)>) -> bool {
    &&& maps.len() == TRIGRAM_SHARDS
    &&& forall|s: int|
        0 <= s < maps.len() ==> (#[trigger] maps[s]).len() > 0 && map_readable(maps[s])
            && fst_entries(maps[s]) == Some(shard_entries(written, written.len() as int, s))
}

/// The first `n` maps, one after another.
pub open spec fn maps_bytes(maps: Seq<Seq<u8>>, n: nat) -> Seq<u8>
    decreases n,
{
    if n == 0 {
        Seq::empty()
    } else {
        maps_bytes(maps, (n - 1) as nat) + maps[n - 1]
    }
}

/// Where shard `n` starts.
pub open spec fn shard_offset(maps: Seq<Seq<u8>>, n: nat) -> nat {
    8 + maps_bytes(maps, n).len()
}

/// The first `n` offsets, eight bytes each.
pub open spec fn offset_bytes(maps: Seq<Seq<u8>>, n: nat) -> Seq<u8>
    decreases n,
{
    if n == 0 {
        Seq::empty()
    } else {
        offset_bytes(maps, (n - 1) as nat) + crate::bits::le_bytes(
            shard_offset(maps, (n - 1) as nat),
            8,
        )
    }
}

/// A sharded trigram dictionary of maps.
pub open spec fn trigram_file(maps: Seq<Seq<u8>>) -> Seq<u8> {
    TRIGRAM_MAGIC@ + maps_bytes(maps, TRIGRAM_SHARDS as nat) + offset_bytes(
        maps,
        TRIGRAM_OFFSETS as nat,
    )
}

/// `bytes` are a sharded dictionary of the terms.
pub open spec fn is_trigram_file(bytes: Seq<u8>, written: Seq<(Seq<u8>, u64)>) -> bool {
    exists|maps: Seq<Seq<u8>>| #[trigger]
        holds_shards(maps, written) && bytes == trigram_file(maps)
}

/// Ascending trigrams.
pub open spec fn trigrams_ascend(written: Seq<(Seq<u8>, u64)>) -> bool {
    &&& keys_ascend(written)
    &&& forall|k: int| 0 <= k < written.len() ==> (#[trigger] written[k]).0.len() == 3
}

/// Gathers the terms of a sharded trigram dictionary.
#[derive(Debug)]
pub struct TrigramBuilder {
    pub entries: Vec<TermEntry>,
}

impl View for TrigramBuilder {
    type V = Seq<(Seq<u8>, u64)>;

    open spec fn view(&self) -> Seq<(Seq<u8>, u64)> {
        entry_views(self.entries@)
    }
}

proof fn lemma_first_bytes(written: Seq<(Seq<u8>, u64)>, i: int, j: int)
    requires
        trigrams_ascend(written),
        0 <= i <= j < written.len(),
    ensures
        written[i].0[0] <= written[j].0[0],
        i < j && written[i].0[0] == written[j].0[0] ==> crate::text::bytes_before(
            written[i].0.skip(1),
            written[j].0.skip(1),
        ),
{
    if i < j {
        assert(crate::text::bytes_before(written[i].0, written[j].0));
    }
}

proof fn lemma_shard_skips(written: Seq<(Seq<u8>, u64)>, i: int, n: int, shard: int)
    requires
        0 <= i <= n <= written.len(),
        forall|k: int| i <= k < n ==> (#[trigger] written[k]).0[0] != shard,
    ensures
        shard_entries(written, n, shard) == shard_entries(written, i, shard),
    decreases n - i,
{
    if i < n {
        lemma_shard_skips(written, i, n - 1, shard);
        assert(written[n - 1].0[0] != shard);
    }
}

/// Add a key that must follow those before it.
fn push_term(entries: &mut Vec<TermEntry>, key: &[u8], value: u64) -> (pushed: Result<
    (),
    IndexError,
>)
    requires
        keys_ascend(entry_views(old(entries)@)),
    ensures
        keys_ascend(entry_views(final(entries)@)),
        match pushed {
            Ok(_) => entry_views(final(entries)@) == entry_views(old(entries)@).push((key@, value))
                && (old(entries)@.len() > 0 ==> crate::text::bytes_before(
                old(entries)@.last().0@,
                key@,
            )),
            Err(e) => final(entries)@ == old(entries)@ && old(entries)@.len() > 0
                && !crate::text::bytes_before(old(entries)@.last().0@, key@) && e
                == IndexError::TermOrder,
        },
{
    let ghost before = entry_views(entries@);
    let n: usize = entries.len();
    if n > 0 {
        if !bytes_less(entries[n - 1].0.as_slice(), key) {
            return Err(IndexError::TermOrder);
        }
    }
    entries.push((slice_to_vec(key), value));
    proof {
        let after = entry_views(entries@);
        assert(after =~= before.push((key@, value)));
        assert forall|i: int, j: int| 0 <= i < j < after.len() implies crate::text::bytes_before(
            (#[trigger] after[i]).0,
            (#[trigger] after[j]).0,
        ) by {
            if j < n {
                assert(crate::text::bytes_before(before[i].0, before[j].0));
            } else if i < n - 1 {
                assert(crate::text::bytes_before(before[i].0, before[n - 1].0));
                crate::text::lemma_before_transitive(before[i].0, before[n - 1].0, key@);
            }
        }
    }
    Ok(())
}

impl TrigramBuilder {
    /// The terms are ascending trigrams.
    pub open spec fn wf(&self) -> bool {
        trigrams_ascend(self@)
    }

    pub fn new() -> (builder: TrigramBuilder)
        ensures
            builder.wf(),
            builder@ == Seq::<(Seq<u8>, u64)>::empty(),
    {
        let builder = TrigramBuilder { entries: Vec::new() };
        assert(builder@ =~= Seq::<(Seq<u8>, u64)>::empty());
        builder
    }

    /// Add a trigram, which must come after those before it.
    pub fn insert(&mut self, gram: &[u8], value: u64) -> (inserted: Result<(), IndexError>)
        requires
            old(self).wf(),
        ensures
            final(self).wf(),
            match inserted {
                Ok(_) => gram@.len() == 3 && (old(self)@.len() > 0 ==> crate::text::bytes_before(
                    old(self)@.last().0,
                    gram@,
                )) && final(self)@ == old(self)@.push((gram@, value)),
                Err(e) => final(self)@ == old(self)@ && if gram@.len() != 3 {
                    e == IndexError::TrigramLength
                } else {
                    e == IndexError::TermOrder && old(self)@.len() > 0
                        && !crate::text::bytes_before(old(self)@.last().0, gram@)
                },
            },
    {
        if gram.len() != 3 {
            return Err(IndexError::TrigramLength);
        }
        push_term(&mut self.entries, gram, value)
    }

    fn first_byte(&self, i: usize) -> (byte: u8)
        requires
            self.wf(),
            i < self@.len(),
        ensures
            byte == self@[i as int].0[0],
    {
        assert(self@[i as int].0 == self.entries@[i as int].0@);
        assert(self@[i as int].0.len() == 3);
        self.entries[i].0[0]
    }

    /// The map of one shard, from term `start` on, and the term past it.
    fn close_shard(&self, start: usize, shard: usize) -> (closed: (Vec<u8>, usize))
        requires
            self.wf(),
            start <= self@.len(),
            shard < TRIGRAM_SHARDS,
            forall|k: int| 0 <= k < start ==> (#[trigger] self@[k]).0[0] < shard,
            forall|k: int| start <= k < self@.len() ==> (#[trigger] self@[k]).0[0] >= shard,
        ensures
            fst_entries(closed.0@) == Some(
                shard_entries(self@, self@.len() as int, shard as int),
            ),
            map_readable(closed.0@),
            start <= closed.1 <= self@.len(),
            forall|k: int| 0 <= k < closed.1 ==> (#[trigger] self@[k]).0[0] <= shard,
            forall|k: int| closed.1 <= k < self@.len() ==> (#[trigger] self@[k]).0[0] > shard,
    {
        let ghost written = self@;
        let n: usize = self.entries.len();
        let mut part: Vec<TermEntry> = Vec::new();
        let mut i: usize = start;
        proof {
            lemma_shard_skips(written, 0, start as int, shard as int);
            assert(entry_views(part@) =~= shard_entries(written, start as int, shard as int));
        }
        while i < n && self.first_byte(i) as usize == shard
            invariant
                n == self.entries@.len(),
                self.wf(),
                written == self@,
                written.len() == n,
                start <= i <= n,
                forall|k: int| start <= k < i ==> (#[trigger] written[k]).0[0] == shard,
                forall|k: int| 0 <= k < n ==> (#[trigger] written[k]).0 == self.entries@[k].0@,
                part@.len() == i - start,
                forall|k: int|
                    0 <= k < part@.len() ==> (#[trigger] part@[k]).0@ == written[start + k].0.skip(
                        1,
                    ),
                entry_views(part@) == shard_entries(written, i as int, shard as int),
            decreases n - i,
        {
            let gram = &self.entries[i].0;
            assert(written[i as int].0 == gram@);
            assert(written[i as int].0.len() == 3);
            let suffix: &[u8] = vstd::slice::slice_subrange(gram.as_slice(), 1, 3);
            assert(suffix@ =~= written[i as int].0.skip(1));
            let ghost before = entry_views(part@);
            part.push((slice_to_vec(suffix), self.entries[i].1));
            assert(entry_views(part@) =~= before.push(
                (written[i as int].0.skip(1), written[i as int].1),
            ));
            i = i + 1;
        }
        proof {
            assert forall|k: int| i <= k < n implies (#[trigger] written[k]).0[0] > shard by {
                lemma_first_bytes(written, i as int, k);
                assert(written[i as int].0 == self.entries@[i as int].0@);
            }
            lemma_shard_skips(written, i as int, n as int, shard as int);
            assert(keys_ascend(entry_views(part@))) by {
                let views = entry_views(part@);
                assert forall|a: int, b: int|
                    0 <= a < b < views.len() implies crate::text::bytes_before(
                    (#[trigger] views[a]).0,
                    (#[trigger] views[b]).0,
                ) by {
                    assert(part@[a].0@ == written[start + a].0.skip(1));
                    assert(part@[b].0@ == written[start + b].0.skip(1));
                    lemma_first_bytes(written, start + a, start + b);
                }
            }
        }
        match build_map(part.as_slice()) {
            Some(bytes) => (bytes, i),
            None => {
                assert(false);
                (Vec::new(), i)
            },
        }
    }

    /// The finished dictionary.
    pub fn finish(self) -> (bytes: Vec<u8>)
        requires
            self.wf(),
        ensures
            is_trigram_file(bytes@, self@),
    {
        let ghost written = self@;
        let ghost mut maps: Seq<Seq<u8>> = Seq::empty();
        let mut out: Vec<u8> = Vec::new();
        out.extend_from_slice(vstd::array::array_as_slice(&TRIGRAM_MAGIC));
        let mut offsets: Vec<u64> = Vec::new();
        offsets.push(out.len() as u64);
        let mut next: usize = 0;
        let mut shard: usize = 0;
        assert(out@ =~= TRIGRAM_MAGIC@ + maps_bytes(maps, 0));
        while shard < TRIGRAM_SHARDS
            invariant
                self.wf(),
                written == self@,
                shard <= TRIGRAM_SHARDS,
                next <= written.len(),
                forall|k: int| 0 <= k < next ==> (#[trigger] written[k]).0[0] < shard,
                forall|k: int| next <= k < written.len() ==> (#[trigger] written[k]).0[0] >= shard,
                out@ == TRIGRAM_MAGIC@ + maps_bytes(maps, shard as nat),
                maps.len() == shard,
                forall|s: int|
                    0 <= s < shard ==> (#[trigger] maps[s]).len() > 0 && map_readable(maps[s])
                        && fst_entries(maps[s]) == Some(
                        shard_entries(written, written.len() as int, s),
                    ),
                offsets@.len() == shard + 1,
                forall|k: int|
                    0 <= k < offsets@.len() ==> #[trigger] offsets@[k] == shard_offset(
                        maps,
                        k as nat,
                    ),
            decreases TRIGRAM_SHARDS - shard,
        {
            let (map, after) = self.close_shard(next, shard);
            let ghost held = maps;
            proof {
                maps = maps.push(map@);
                lemma_maps_extend(held, map@, shard as nat);
                assert forall|k: int| 0 <= k < offsets@.len() implies #[trigger] offsets@[k]
                    == shard_offset(maps, k as nat) by {
                    lemma_maps_extend(held, map@, k as nat);
                }
            }
            out.extend_from_slice(map.as_slice());
            assert(out@ =~= TRIGRAM_MAGIC@ + maps_bytes(maps, (shard + 1) as nat));
            offsets.push(out.len() as u64);
            next = after;
            shard = shard + 1;
        }
        let ghost body = out@;
        let mut k: usize = 0;
        assert(out@ =~= body + offset_bytes(maps, 0));
        while k < offsets.len()
            invariant
                k <= offsets.len(),
                offsets@.len() == TRIGRAM_OFFSETS,
                forall|k: int|
                    0 <= k < offsets@.len() ==> #[trigger] offsets@[k] == shard_offset(
                        maps,
                        k as nat,
                    ),
                out@ == body + offset_bytes(maps, k as nat),
            decreases offsets.len() - k,
        {
            put_u64_le(&mut out, offsets[k]);
            assert(out@ =~= body + offset_bytes(maps, (k + 1) as nat));
            k = k + 1;
        }
        assert(holds_shards(maps, written));
        assert(out@ =~= trigram_file(maps));
        out
    }
}

proof fn lemma_maps_extend(maps: Seq<Seq<u8>>, more: Seq<u8>, n: nat)
    requires
        n <= maps.len(),
    ensures
        maps_bytes(maps.push(more), n) == maps_bytes(maps, n),
    decreases n,
{
    if n > 0 {
        lemma_maps_extend(maps, more, (n - 1) as nat);
    }
}


/// The offset of shard `k` that the footer says.
pub open spec fn footer_offset(bytes: Seq<u8>, k: int) -> nat {
    crate::sparse_table::field(bytes, bytes.len() - TRIGRAM_FOOTER_LEN + 8 * k)
}

/// The offsets start after the magic, end at the footer, and ascend.
pub open spec fn offsets_valid(bytes: Seq<u8>) -> bool {
    &&& footer_offset(bytes, 0) == 8
    &&& footer_offset(bytes, TRIGRAM_SHARDS as int) == bytes.len() - TRIGRAM_FOOTER_LEN
    &&& forall|k: int| 0 <= k < TRIGRAM_SHARDS ==> #[trigger] shard_filled(bytes, k)
}

/// Shard `k` ends after it starts.
pub open spec fn shard_filled(bytes: Seq<u8>, k: int) -> bool {
    footer_offset(bytes, k) < footer_offset(bytes, k + 1)
}

/// The range of shard `k` that the footer says.
pub open spec fn shard_range(bytes: Seq<u8>, k: int) -> (int, int) {
    (footer_offset(bytes, k) as int, footer_offset(bytes, k + 1) as int)
}

/// The dictionary is sharded.
pub open spec fn is_sharded(bytes: Seq<u8>) -> bool {
    bytes.len() >= 8 && bytes.subrange(0, 8) == TRIGRAM_MAGIC@
}

/// Where the shards of a trigram dictionary lie; nothing where it is a single map.
pub fn open_shards(bytes: &[u8]) -> (shards: Result<Option<Vec<(usize, usize)>>, IndexError>)
    ensures
        match shards {
            Ok(None) => !is_sharded(bytes@),
            Ok(Some(ranges)) => is_sharded(bytes@) && bytes@.len() >= 8 + TRIGRAM_FOOTER_LEN
                && offsets_valid(bytes@) && ranges@.len() == TRIGRAM_SHARDS && forall|k: int|
                0 <= k < TRIGRAM_SHARDS ==> shard_range(bytes@, k) == (
                    (#[trigger] ranges@[k]).0 as int,
                    ranges@[k].1 as int,
                ) && ranges@[k].0 < ranges@[k].1 <= bytes@.len(),
            Err(e) => is_sharded(bytes@) && if bytes@.len() < 8 + TRIGRAM_FOOTER_LEN {
                e == IndexError::ShardFooter
            } else {
                !offsets_valid(bytes@) && e == IndexError::ShardOffsets
            },
        },
{
    let magic: [u8; 8] = TRIGRAM_MAGIC;
    let n: usize = bytes.len();
    if n < 8 {
        return Ok(None);
    }
    if !bytes_eq(vstd::slice::slice_subrange(bytes, 0, 8), vstd::array::array_as_slice(&magic)) {
        return Ok(None);
    }
    if n < 8 + TRIGRAM_FOOTER_LEN {
        return Err(IndexError::ShardFooter);
    }
    let footer: usize = n - TRIGRAM_FOOTER_LEN;
    let first: u64 = read_u64_le(bytes, footer);
    let last: u64 = read_u64_le(bytes, footer + 8 * TRIGRAM_SHARDS);
    if first != 8 || last != footer as u64 {
        return Err(IndexError::ShardOffsets);
    }
    let mut ranges: Vec<(usize, usize)> = Vec::new();
    let mut low: u64 = first;
    let mut k: usize = 0;
    while k < TRIGRAM_SHARDS
        invariant
            n == bytes@.len(),
            n >= 8 + TRIGRAM_FOOTER_LEN,
            is_sharded(bytes@),
            footer == n - TRIGRAM_FOOTER_LEN,
            footer_offset(bytes@, 0) == 8,
            footer_offset(bytes@, TRIGRAM_SHARDS as int) == footer,
            k <= TRIGRAM_SHARDS,
            low == footer_offset(bytes@, k as int),
            low <= footer,
            ranges@.len() == k,
            forall|j: int| 0 <= j < k ==> #[trigger] shard_filled(bytes@, j),
            forall|j: int|
                0 <= j < k ==> shard_range(bytes@, j) == (
                    (#[trigger] ranges@[j]).0 as int,
                    ranges@[j].1 as int,
                ) && ranges@[j].0 < ranges@[j].1 <= footer,
        decreases TRIGRAM_SHARDS - k,
    {
        let high: u64 = read_u64_le(bytes, footer + 8 * (k + 1));
        assert(high == footer_offset(bytes@, k + 1));
        if low >= high || high > footer as u64 {
            proof {
                if offsets_valid(bytes@) {
                    assert(shard_filled(bytes@, k as int));
                    lemma_offsets_ascend(bytes@, k + 1, TRIGRAM_SHARDS as int);
                }
            }
            return Err(IndexError::ShardOffsets);
        }
        ranges.push((low as usize, high as usize));
        low = high;
        k = k + 1;
    }
    Ok(Some(ranges))
}

proof fn lemma_offsets_ascend(bytes: Seq<u8>, i: int, j: int)
    requires
        offsets_valid(bytes),
        0 <= i <= j <= TRIGRAM_SHARDS,
    ensures
        footer_offset(bytes, i) <= footer_offset(bytes, j),
    decreases j - i,
{
    if i < j {
        lemma_offsets_ascend(bytes, i, j - 1);
        assert(shard_filled(bytes, j - 1));
    }
}

/// The shard that a gram lies in and its key there; nothing for a gram that is no trigram.
pub fn shard_key(gram: &[u8]) -> (key: Option<(usize, [u8; 2])>)
    ensures
        match key {
            Some((shard, suffix)) => gram@.len() == 3 && shard == gram@[0] && suffix@
                == gram@.skip(1),
            None => gram@.len() != 3,
        },
{
    if gram.len() != 3 {
        return None;
    }
    let suffix: [u8; 2] = [gram[1], gram[2]];
    assert(suffix@ =~= gram@.skip(1));
    Some((gram[0] as usize, suffix))
}

/// The value of `hash` in a whole sparse table.
pub open spec fn table_value(
    index: SparseTableIndex,
    bytes: Seq<u8>,
    hash: u64,
) -> Result<Option<u64>, IndexError> {
    match crate::sparse_table::block_position(
        crate::sparse_table::block_views(index.blocks@),
        hash,
    ) {
        None => Ok(None),
        Some(k) => {
            let block = index.blocks@[k as int];
            let raw = bytes.subrange(block.offset as int, block.offset + block.len);
            if block.offset + block.len > bytes.len() {
                Err(IndexError::TermBlockBounds)
            } else if block.len == 0 || block.len as nat % crate::sparse_table::ENTRY_BYTES as nat
                != 0 {
                Err(IndexError::TableBlockLength)
            } else {
                Ok(
                    crate::sparse_table::bisected(
                        raw,
                        hash,
                        0,
                        raw.len() as int / crate::sparse_table::ENTRY_BYTES as int,
                    ),
                )
            }
        },
    }
}

/// Look a hash up in a sparse table that is at hand as a whole. A block that cannot be read is an
/// error, never an absent gram.
pub fn get_sparse(index: &SparseTableIndex, bytes: &[u8], hash: u64) -> (found: Result<
    Option<u64>,
    IndexError,
>)
    requires
        index.wf(),
    ensures
        found == table_value(*index, bytes@, hash),
{
    match index.block_for(hash) {
        None => Ok(None),
        Some(k) => {
            let block = &index.blocks[k];
            let n: u64 = bytes.len() as u64;
            if block.len > n || block.offset > n - block.len {
                return Err(IndexError::TermBlockBounds);
            }
            let raw: &[u8] = vstd::slice::slice_subrange(
                bytes,
                block.offset as usize,
                (block.offset + block.len) as usize,
            );
            lookup_in_block(raw, hash)
        },
    }
}

/// The entries of a block of a sparse table.
pub open spec fn block_items(raw: Seq<u8>) -> Seq<(u64, u64)> {
    Seq::new(
        raw.len() / crate::sparse_table::ENTRY_BYTES as nat,
        |i: int|
            (crate::sparse_table::entry_hash(raw, i), crate::sparse_table::entry_value(raw, i)),
    )
}

/// The bytes of block `k`.
pub open spec fn block_raw(index: SparseTableIndex, bytes: Seq<u8>, k: int) -> Seq<u8> {
    let block = index.blocks@[k];
    bytes.subrange(block.offset as int, block.offset + block.len)
}

/// What is wrong with block `k`.
pub open spec fn block_fault(index: SparseTableIndex, bytes: Seq<u8>, k: int) -> Option<IndexError> {
    let block = index.blocks@[k];
    if block.offset + block.len > bytes.len() {
        Some(IndexError::TermBlockBounds)
    } else if block.len == 0 || block.len as nat % crate::sparse_table::ENTRY_BYTES as nat != 0 {
        Some(IndexError::TableBlockLength)
    } else {
        None
    }
}

/// The entries of the first `n` blocks.
pub open spec fn table_items(index: SparseTableIndex, bytes: Seq<u8>, n: int) -> Seq<(u64, u64)>
    decreases n,
{
    if n <= 0 {
        Seq::empty()
    } else {
        table_items(index, bytes, n - 1) + block_items(block_raw(index, bytes, n - 1))
    }
}

/// All entries of a sparse table that is at hand as a whole, block by block.
pub fn sparse_entries(index: &SparseTableIndex, bytes: &[u8]) -> (entries: Result<
    Vec<(u64, u64)>,
    IndexError,
>)
    ensures
        match entries {
            Ok(list) => list@ == table_items(*index, bytes@, index.blocks@.len() as int)
                && forall|k: int|
                0 <= k < index.blocks@.len() ==> #[trigger] block_fault(*index, bytes@, k) is None,
            Err(e) => exists|k: int|
                0 <= k < index.blocks@.len() && #[trigger] block_fault(*index, bytes@, k) == Some(e)
                    && forall|j: int|
                    0 <= j < k ==> #[trigger] block_fault(*index, bytes@, j) is None,
        },
{
    let mut list: Vec<(u64, u64)> = Vec::new();
    let mut k: usize = 0;
    while k < index.blocks.len()
        invariant
            k <= index.blocks@.len(),
            list@ == table_items(*index, bytes@, k as int),
            forall|j: int| 0 <= j < k ==> #[trigger] block_fault(*index, bytes@, j) is None,
        decreases index.blocks.len() - k,
    {
        let block = &index.blocks[k];
        let n: u64 = bytes.len() as u64;
        if block.len > n || block.offset > n - block.len {
            assert(block_fault(*index, bytes@, k as int) == Some(IndexError::TermBlockBounds));
            return Err(IndexError::TermBlockBounds);
        }
        let raw: &[u8] = vstd::slice::slice_subrange(
            bytes,
            block.offset as usize,
            (block.offset + block.len) as usize,
        );
        if raw.len() == 0 || raw.len() % 16 != 0 {
            assert(block_fault(*index, bytes@, k as int) == Some(IndexError::TableBlockLength));
            return Err(IndexError::TableBlockLength);
        }
        let ghost before = list@;
        let ghost items = block_items(raw@);
        let count: usize = raw.len() / 16;
        let mut i: usize = 0;
        assert(before + items.take(0) =~= before);
        while i < count
            invariant
                count * 16 == raw@.len(),
                raw@.len() <= usize::MAX,
                i <= count,
                items == block_items(raw@),
                list@ == before + items.take(i as int),
            decreases count - i,
        {
            list.push((read_u64_be(raw, 16 * i), read_u64_be(raw, 16 * i + 8)));
            assert(list@.last() == items[i as int]);
            assert(list@ =~= before + items.take(i + 1));
            i = i + 1;
        }
        assert(items.take(i as int) =~= items);
        assert(block_fault(*index, bytes@, k as int) is None);
        k = k + 1;
    }
    Ok(list)
}

proof fn lemma_blocks_join(table: Seq<(u64, u64)>, index: SparseTableIndex, n: nat)
    requires
        crate::sparse_table::table_bytes(table).len() <= u64::MAX,
        crate::sparse_table::block_views(index.blocks@) == crate::sparse_table::table_blocks(
            table,
        ),
        n <= crate::sparse_table::block_count(table.len()),
    ensures
        ({
            let end = crate::sparse_table::BLOCK_ENTRIES * n;
            let bytes = crate::sparse_table::table_bytes(table);
            &&& table_items(index, bytes, n as int) == table.take(
                if end < table.len() {
                    end as int
                } else {
                    table.len() as int
                },
            )
            &&& forall|k: int|
                0 <= k < n ==> #[trigger] block_fault(index, bytes, k) is None
        }),
    decreases n,
{
    crate::sparse_table::lemma_table_len(table);
    let bytes = crate::sparse_table::table_bytes(table);
    if n > 0 {
        let k = (n - 1) as nat;
        lemma_blocks_join(table, index, k);
        crate::sparse_table::block_bytes_in_table(table, k);
        let part = crate::sparse_table::block_entries(table, k);
        let views = crate::sparse_table::block_views(index.blocks@);
        assert(views.len() == crate::sparse_table::block_count(table.len()));
        assert(views[k as int] == index.blocks@[k as int].block());
        let block = index.blocks@[k as int];
        let raw = block_raw(index, bytes, k as int);
        crate::sparse_table::lemma_data_len(part);
        crate::sparse_table::lemma_data_len(table);
        assert(raw == crate::sparse_table::data_bytes(part));
        assert(part.len() > 0);
        assert(raw.len() == 16 * part.len());
        assert(block.offset + block.len <= 8 + 16 * table.len());
        assert(bytes.len() >= 8 + 16 * table.len());
        assert(block_fault(index, bytes, k as int) is None);
        assert(block_items(raw) =~= part) by {
            assert forall|i: int| 0 <= i < part.len() implies block_items(raw)[i] == part[i] by {
                crate::sparse_table::lemma_entry_fields(part, i);
            }
        }
    } else {
        assert(table.take(0) =~= Seq::<(u64, u64)>::empty());
    }
}

/// Reading all entries of a written sparse table gives back what was written, in order.
pub proof fn sparse_tables_read_back(table: Seq<(u64, u64)>, index: SparseTableIndex)
    requires
        crate::sparse_table::table_bytes(table).len() <= u64::MAX,
        crate::sparse_table::block_views(index.blocks@) == crate::sparse_table::table_blocks(
            table,
        ),
    ensures
        table_items(
            index,
            crate::sparse_table::table_bytes(table),
            index.blocks@.len() as int,
        ) == table,
        forall|k: int|
            0 <= k < index.blocks@.len() ==> #[trigger] block_fault(
                index,
                crate::sparse_table::table_bytes(table),
                k,
            ) is None,
{
    crate::sparse_table::lemma_table_len(table);
    let n = crate::sparse_table::block_count(table.len());
    assert(index.blocks@.len() == n) by {
        assert(crate::sparse_table::block_views(index.blocks@).len() == n);
    }
    lemma_blocks_join(table, index, n);
    assert(table.take(table.len() as int) =~= table);
}

/// A sparse table answers for itself: looked up in the bytes of a finished table, a hash has the
/// value that it was inserted with, and none if it was not.
pub proof fn sparse_tables_answer(
    table: Seq<(u64, u64)>,
    index: SparseTableIndex,
    hash: u64,
)
    requires
        crate::sparse_table::hashes_ascend(table),
        crate::sparse_table::table_bytes(table).len() <= u64::MAX,
        crate::sparse_table::block_views(index.blocks@) == crate::sparse_table::table_blocks(
            table,
        ),
    ensures
        table_value(index, crate::sparse_table::table_bytes(table), hash) == Ok::<
            Option<u64>,
            IndexError,
        >(crate::sparse_table::value_of(table, hash)),
{
    crate::sparse_table::lemma_table_len(table);
    crate::sparse_table::table_lookup_finds_inserted(table, hash);
    let views = crate::sparse_table::table_blocks(table);
    if let Some(k) = crate::sparse_table::block_position(views, hash) {
        let part = crate::sparse_table::block_entries(table, k);
        crate::sparse_table::lemma_data_len(part);
        crate::sparse_table::lemma_data_len(table);
        crate::sparse_table::block_bytes_in_table(table, k);
        assert(views[k as int] == index.blocks@[k as int].block());
        assert(part.len() > 0);
        let block = index.blocks@[k as int];
        let bytes = crate::sparse_table::table_bytes(table);
        assert(block.offset + block.len <= 8 + 16 * table.len());
        assert(bytes.len() >= 8 + 16 * table.len());
        assert(bytes.subrange(block.offset as int, block.offset + block.len).len() == block.len);
    }
}

proof fn lemma_offset_bytes(maps: Seq<Seq<u8>>, n: nat, k: nat)
    requires
        k < n,
        forall|j: nat| j < n ==> #[trigger] shard_offset(maps, j) <= u64::MAX,
    ensures
        offset_bytes(maps, n).len() == 8 * n,
        offset_bytes(maps, n).subrange(8 * k as int, 8 * k as int + 8) == crate::bits::le_bytes(
            shard_offset(maps, k),
            8,
        ),
    decreases n,
{
    let front = offset_bytes(maps, (n - 1) as nat);
    let last = crate::bits::le_bytes(shard_offset(maps, (n - 1) as nat), 8);
    assert(shard_offset(maps, (n - 1) as nat) <= u64::MAX);
    crate::bits::lemma_u64_bytes(shard_offset(maps, (n - 1) as nat) as u64);
    if n > 1 {
        lemma_offset_bytes(maps, (n - 1) as nat, if k < n - 1 { k } else { 0 });
    }
    if k < n - 1 {
        assert((front + last).subrange(8 * k as int, 8 * k as int + 8) =~= front.subrange(
            8 * k as int,
            8 * k as int + 8,
        ));
    } else {
        assert((front + last).subrange(8 * k as int, 8 * k as int + 8) =~= last);
    }
}

proof fn lemma_maps_grow(maps: Seq<Seq<u8>>, i: nat, j: nat)
    requires
        i <= j,
    ensures
        maps_bytes(maps, i).len() <= maps_bytes(maps, j).len(),
        maps_bytes(maps, j).subrange(0, maps_bytes(maps, i).len() as int) == maps_bytes(
            maps,
            i,
        ),
    decreases j,
{
    if i < j {
        lemma_maps_grow(maps, i, (j - 1) as nat);
        let short = maps_bytes(maps, (j - 1) as nat);
        let n = maps_bytes(maps, i).len() as int;
        assert(maps_bytes(maps, j).subrange(0, n) =~= short.subrange(0, n));
    } else {
        assert(maps_bytes(maps, j).subrange(0, maps_bytes(maps, i).len() as int)
            =~= maps_bytes(maps, i));
    }
}

proof fn lemma_file_opens(maps: Seq<Seq<u8>>, shard: int)
    requires
        maps.len() == TRIGRAM_SHARDS,
        forall|s: int| 0 <= s < maps.len() ==> (#[trigger] maps[s]).len() > 0,
        trigram_file(maps).len() <= u64::MAX,
        0 <= shard < TRIGRAM_SHARDS,
    ensures
        is_sharded(trigram_file(maps)),
        trigram_file(maps).len() >= 8 + TRIGRAM_FOOTER_LEN,
        offsets_valid(trigram_file(maps)),
        trigram_file(maps).subrange(
            shard_range(trigram_file(maps), shard).0,
            shard_range(trigram_file(maps), shard).1,
        ) == maps[shard],
{
    broadcast use vstd::array::group_array_axioms;

    let file = trigram_file(maps);
    let joined = maps_bytes(maps, 256);
    let footer = offset_bytes(maps, 257);
    assert forall|j: nat| j < 257 implies #[trigger] shard_offset(maps, j) <= u64::MAX by {
        lemma_maps_grow(maps, j, 256);
    }
    lemma_offset_bytes(maps, 257, 0);
    assert(TRIGRAM_MAGIC@.len() == 8);
    assert(file.subrange(0, 8) =~= TRIGRAM_MAGIC@);
    assert forall|k: int| 0 <= k <= 256 implies #[trigger] footer_offset(file, k) == shard_offset(
        maps,
        k as nat,
    ) by {
        lemma_offset_bytes(maps, 257, k as nat);
        let at = file.len() - TRIGRAM_FOOTER_LEN + 8 * k;
        assert(file.subrange(at, at + 8) =~= footer.subrange(8 * k, 8 * k as int + 8));
        assert(shard_offset(maps, k as nat) <= u64::MAX);
        crate::bits::lemma_u64_bytes(shard_offset(maps, k as nat) as u64);
    }
    assert(footer_offset(file, 0) == 8);
    assert(footer_offset(file, 256) == file.len() - TRIGRAM_FOOTER_LEN);
    assert forall|k: int| 0 <= k < TRIGRAM_SHARDS implies #[trigger] shard_filled(file, k) by {
        assert(maps[k].len() > 0);
        assert(footer_offset(file, k) == shard_offset(maps, k as nat));
        assert(footer_offset(file, k + 1) == shard_offset(maps, (k + 1) as nat));
    }
    let low = maps_bytes(maps, shard as nat).len() as int;
    let high = maps_bytes(maps, (shard + 1) as nat).len() as int;
    assert(footer_offset(file, shard) == 8 + low);
    assert(footer_offset(file, shard + 1) == 8 + high);
    lemma_maps_grow(maps, (shard + 1) as nat, 256);
    assert(file.subrange(8 + low, 8 + high) =~= joined.subrange(0, high).subrange(low, high));
    assert(maps_bytes(maps, (shard + 1) as nat).subrange(low, high) =~= maps[shard]);
}

/// A sharded dictionary says of itself where its shards lie, and each holds the map of the terms
/// that start with its byte.
pub proof fn written_shards_open(bytes: Seq<u8>, written: Seq<(Seq<u8>, u64)>, shard: int)
    requires
        is_trigram_file(bytes, written),
        bytes.len() <= u64::MAX,
        0 <= shard < TRIGRAM_SHARDS,
    ensures
        is_sharded(bytes),
        bytes.len() >= 8 + TRIGRAM_FOOTER_LEN,
        offsets_valid(bytes),
        fst_entries(
            bytes.subrange(shard_range(bytes, shard).0, shard_range(bytes, shard).1),
        ) == Some(shard_entries(written, written.len() as int, shard)),
        map_readable(
            bytes.subrange(shard_range(bytes, shard).0, shard_range(bytes, shard).1),
        ),
{
    let maps = choose|maps: Seq<Seq<u8>>| #[trigger]
        holds_shards(maps, written) && bytes == trigram_file(maps);
    lemma_file_opens(maps, shard);
    assert(maps[shard].len() > 0);
}

/// Every trigram that is written lies in the shard of its first byte, under its other two and
/// with its value, and a shard holds nothing else.
pub proof fn written_trigrams_lie_in_their_shards(
    written: Seq<(Seq<u8>, u64)>,
    n: int,
    shard: int,
    key: Seq<u8>,
    value: u64,
)
    requires
        trigrams_ascend(written),
        0 <= n <= written.len(),
        0 <= shard < TRIGRAM_SHARDS,
    ensures
        shard_entries(written, n, shard).contains((key, value)) <==> exists|k: int|
            0 <= k < n && (#[trigger] written[k]).0[0] == shard && written[k].0.skip(1) == key
                && written[k].1 == value,
    decreases n,
{
    let here = shard_entries(written, n, shard);
    if n > 0 {
        written_trigrams_lie_in_their_shards(written, n - 1, shard, key, value);
        let front = shard_entries(written, n - 1, shard);
        let last = (written[n - 1].0.skip(1), written[n - 1].1);
        if written[n - 1].0[0] == shard {
            if front.contains((key, value)) {
                let k = choose|k: int| 0 <= k < front.len() && front[k] == (key, value);
                assert(here[k] == (key, value));
            }
            if last == (key, value) {
                assert(here.last() == (key, value));
            }
            if here.contains((key, value)) && last != (key, value) {
                let k = choose|k: int| 0 <= k < here.len() && here[k] == (key, value);
                assert(front[k] == (key, value));
            }
        }
    }
}

/// Gathers the terms of a dictionary of any kind.
pub enum TermBuilder {
    /// One map of grams.
    Single(Vec<TermEntry>),
    /// A table by gram hash.
    Sparse(SparseTableWriter),
    /// A map of grams for each first byte.
    Trigram(TrigramBuilder),
}

impl TermBuilder {
    pub open spec fn wf(&self) -> bool {
        match self {
            TermBuilder::Single(entries) => keys_ascend(entry_views(entries@)),
            TermBuilder::Sparse(writer) => writer.wf(),
            TermBuilder::Trigram(builder) => builder.wf(),
        }
    }

    /// An empty dictionary. Only trigram dictionaries can be sharded.
    pub fn new(strategy: Strategy, sharded: bool) -> (builder: Result<TermBuilder, IndexError>)
        ensures
            match builder {
                Ok(builder) => builder.wf() && match (strategy, sharded) {
                    (Strategy::Trigram, true) => builder matches TermBuilder::Trigram(b) && b@
                        == Seq::<(Seq<u8>, u64)>::empty(),
                    (Strategy::Trigram, false) => builder matches TermBuilder::Single(b) && b@.len()
                        == 0,
                    (Strategy::Sparse, false) => builder matches TermBuilder::Sparse(b) && b@
                        == Seq::<(u64, u64)>::empty(),
                    _ => false,
                },
                Err(e) => sharded && strategy == Strategy::Sparse && e
                    == IndexError::ShardedStrategy,
            },
    {
        match strategy {
            Strategy::Trigram => if sharded {
                Ok(TermBuilder::Trigram(TrigramBuilder::new()))
            } else {
                Ok(TermBuilder::Single(Vec::new()))
            },
            Strategy::Sparse => if sharded {
                Err(IndexError::ShardedStrategy)
            } else {
                Ok(TermBuilder::Sparse(SparseTableWriter::new()))
            },
        }
    }

    /// Add a term, which must come after those before it. A sparse term's key is its hash, most
    /// significant byte first.
    pub fn insert(&mut self, key: &[u8], value: u64) -> (inserted: Result<(), IndexError>)
        requires
            old(self).wf(),
        ensures
            final(self).wf(),
            match (*old(self), *final(self)) {
                (TermBuilder::Single(before), TermBuilder::Single(after)) => match inserted {
                    Ok(_) => entry_views(after@) == entry_views(before@).push((key@, value)),
                    Err(e) => after@ == before@ && before@.len() > 0 && !crate::text::bytes_before(
                        before@.last().0@,
                        key@,
                    ) && e == IndexError::TermOrder,
                },
                (TermBuilder::Sparse(before), TermBuilder::Sparse(after)) => match inserted {
                    Ok(_) => key@.len() == 8 && after@ == before@.push(
                        (crate::bits::be_value(key@) as u64, value),
                    ),
                    Err(e) => after@ == before@ && if key@.len() != 8 {
                        e == IndexError::SparseKeyLength
                    } else {
                        e == IndexError::TableOrder && before@.len() > 0 && crate::bits::be_value(
                            key@,
                        ) <= before@.last().0
                    },
                },
                (TermBuilder::Trigram(before), TermBuilder::Trigram(after)) => match inserted {
                    Ok(_) => key@.len() == 3 && after@ == before@.push((key@, value)),
                    Err(e) => after@ == before@ && if key@.len() != 3 {
                        e == IndexError::TrigramLength
                    } else {
                        e == IndexError::TermOrder && before@.len() > 0
                            && !crate::text::bytes_before(before@.last().0, key@)
                    },
                },
                _ => false,
            },
    {
        match self {
            TermBuilder::Single(entries) => push_term(entries, key, value),
            TermBuilder::Sparse(writer) => {
                if key.len() != 8 {
                    return Err(IndexError::SparseKeyLength);
                }
                let hash: u64 = read_u64_be(key, 0);
                assert(key@.subrange(0, 8) =~= key@);
                writer.insert(hash, value)
            },
            TermBuilder::Trigram(builder) => builder.insert(key, value),
        }
    }

    /// The finished dictionary and, for a sparse one, the digest of its tail.
    pub fn finish(self) -> (finished: (Vec<u8>, Option<String>))
        requires
            self.wf(),
        ensures
            match self {
                TermBuilder::Single(entries) => fst_entries(finished.0@) == Some(
                    entry_views(entries@),
                ) && map_readable(finished.0@) && !is_sharded(finished.0@) && finished.1 is None,
                TermBuilder::Sparse(writer) => finished.0@ == crate::sparse_table::table_bytes(
                    writer@,
                ) && match finished.1 {
                    Some(text) => tail_digest_is(finished.0@, text@),
                    None => !(crate::remote_terms::tail_digest(finished.0@) matches Ok(Some(_))),
                },
                TermBuilder::Trigram(builder) => is_trigram_file(finished.0@, builder@)
                    && finished.1 is None,
            },
    {
        match self {
            TermBuilder::Single(entries) => match build_map(entries.as_slice()) {
                Some(bytes) => {
                    assert(!is_sharded(bytes@)) by {
                        broadcast use vstd::array::group_array_axioms;

                        assert(bytes@.subrange(0, 8)[0] == bytes@[0]);
                        assert(TRIGRAM_MAGIC@[0] == 83);
                    }
                    (bytes, None)
                },
                None => {
                    assert(false);
                    (Vec::new(), None)
                },
            },
            TermBuilder::Sparse(writer) => {
                let bytes = writer.finish();
                let hash = match tail_hash_of(bytes.as_slice()) {
                    Ok(hash) => hash,
                    Err(_) => None,
                };
                (bytes, hash)
            },
            TermBuilder::Trigram(builder) => (builder.finish(), None),
        }
    }
}

/// `text` is the digest of the table's tail.
pub open spec fn tail_digest_is(bytes: Seq<u8>, text: Seq<char>) -> bool {
    crate::remote_terms::tail_digest(bytes) == Ok::<Option<Seq<char>>, IndexError>(Some(text))
}

} // verus!
