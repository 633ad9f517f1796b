//! Sorted hash table for sparse term dictionaries: fixed-size (hash, value) entries in blocks, an
//! index with the first hash of every block, and a SHA-256 per block, so that blocks can be
//! fetched and checked by ranged reads without the whole dictionary.

use crate::bits::{put_u64_be, put_u64_le, read_hash, read_u64_be, read_u64_le};
use crate::digest::sha256;
use crate::error::IndexError;
use vstd::prelude::*;

verus! {

/// `H3SPARSE`
pub const SPARSE_TABLE_MAGIC: [u8; 8] = [72, 51, 83, 80, 65, 82, 83, 69];

pub const ENTRY_BYTES: usize = 16;

pub const BLOCK_ENTRIES: usize = 8192;

pub const BLOCK_BYTES: usize = 131072;

pub const INDEX_ENTRY_BYTES: usize = 48;

pub const FOOTER_BYTES: usize = 32;

pub open spec fn magic() -> Seq<u8> {
    SPARSE_TABLE_MAGIC@
}

pub open spec fn entry_bytes(entry: (u64, u64)) -> Seq<u8> {
    crate::bits::be_bytes(entry.0 as nat, 8) + crate::bits::be_bytes(entry.1 as nat, 8)
}

/// Entries one after another.
pub open spec fn data_bytes(entries: Seq<(u64, u64)>) -> Seq<u8>
    decreases entries.len(),
{
    if entries.len() == 0 {
        Seq::empty()
    } else {
        data_bytes(entries.drop_last()) + entry_bytes(entries.last())
    }
}

/// How many blocks `n` entries fill.
pub open spec fn block_count(n: nat) -> nat {
    (n + BLOCK_ENTRIES as nat - 1) as nat / BLOCK_ENTRIES as nat
}

/// The entries of block `k`.
pub open spec fn block_entries(entries: Seq<(u64, u64)>, k: nat) -> Seq<(u64, u64)> {
    let start = BLOCK_ENTRIES * k;
    let end = BLOCK_ENTRIES * (k + 1);
    entries.subrange(
        start as int,
        if end < entries.len() {
            end as int
        } else {
            entries.len() as int
        },
    )
}

/// Hashes strictly ascend.
pub open spec fn hashes_ascend(entries: Seq<(u64, u64)>) -> bool {
    forall|i: int, j: int| 0 <= i < j < entries.len() ==> entries[i].0 < entries[j].0
}

/// Index entry of block `k`: first hash, offset, digest.
pub open spec fn index_entry(entries: Seq<(u64, u64)>, k: nat) -> Seq<u8> {
    crate::bits::le_bytes(entries[(BLOCK_ENTRIES * k) as int].0 as nat, 8) + crate::bits::le_bytes(
        (8 + BLOCK_BYTES * k) as nat,
        8,
    ) + crate::digest::sha256_of(data_bytes(block_entries(entries, k)))@
}

/// The index entries of the first `m` blocks.
pub open spec fn index_bytes(entries: Seq<(u64, u64)>, m: nat) -> Seq<u8>
    decreases m,
{
    if m == 0 {
        Seq::empty()
    } else {
        index_bytes(entries, (m - 1) as nat) + index_entry(entries, (m - 1) as nat)
    }
}

pub open spec fn footer_bytes(entries: Seq<(u64, u64)>) -> Seq<u8> {
    let n = entries.len();
    crate::bits::le_bytes(n, 8) + crate::bits::le_bytes(block_count(n), 8) + crate::bits::le_bytes(
        (8 + ENTRY_BYTES * n) as nat,
        8,
    ) + magic()
}

/// The whole table: magic, entries, block index, footer.
pub open spec fn table_bytes(entries: Seq<(u64, u64)>) -> Seq<u8> {
    magic() + data_bytes(entries) + index_bytes(entries, block_count(entries.len()))
        + footer_bytes(entries)
}

/// Where a block lies, the first hash in it, and its digest.
#[derive(Debug, Clone, Copy)]
pub struct SparseBlockRef {
    pub first_hash: u64,
    pub offset: u64,
    pub len: u64,
    pub hash: [u8; 32],
}

/// The model of a block reference.
#[verifier::ext_equal]
pub struct BlockView {
    pub first_hash: u64,
    pub offset: u64,
    pub len: u64,
    pub hash: Seq<u8>,
}

impl SparseBlockRef {
    pub open spec fn block(self) -> BlockView {
        BlockView {
            first_hash: self.first_hash,
            offset: self.offset,
            len: self.len,
            hash: self.hash@,
        }
    }
}

/// The reference of block `k` of a table.
pub open spec fn block_ref(entries: Seq<(u64, u64)>, k: nat) -> BlockView {
    BlockView {
        first_hash: entries[(BLOCK_ENTRIES * k) as int].0,
        offset: (8 + BLOCK_BYTES * k) as u64,
        len: (ENTRY_BYTES * block_entries(entries, k).len()) as u64,
        hash: crate::digest::sha256_of(data_bytes(block_entries(entries, k)))@,
    }
}

/// Writes a table from ascending inserts.
pub struct SparseTableWriter {
    out: Vec<u8>,
    block: Vec<u8>,
    block_first_hash: u64,
    last_hash: Option<u64>,
    entry_count: u64,
    index: Vec<SparseBlockRef>,
    entries: Ghost<Seq<(u64, u64)>>,
}

impl View for SparseTableWriter {
    type V = Seq<(u64, u64)>;

    /// The entries inserted so far.
    closed spec fn view(&self) -> Seq<(u64, u64)> {
        self.entries@
    }
}

pub proof fn lemma_data_len(entries: Seq<(u64, u64)>)
    ensures
        data_bytes(entries).len() == ENTRY_BYTES * entries.len(),
    decreases entries.len(),
{
    if entries.len() > 0 {
        lemma_data_len(entries.drop_last());
    }
}

proof fn lemma_data_push(entries: Seq<(u64, u64)>, entry: (u64, u64))
    ensures
        data_bytes(entries.push(entry)) == data_bytes(entries) + entry_bytes(entry),
{
    assert(entries.push(entry).drop_last() =~= entries);
}

proof fn lemma_data_append(a: Seq<(u64, u64)>, b: Seq<(u64, u64)>)
    ensures
        data_bytes(a + b) == data_bytes(a) + data_bytes(b),
    decreases b.len(),
{
    if b.len() == 0 {
        assert(a + b =~= a);
        assert(data_bytes(a) + data_bytes(b) =~= data_bytes(a));
    } else {
        lemma_data_append(a, b.drop_last());
        assert((a + b).drop_last() =~= a + b.drop_last());
        assert(data_bytes(a + b) =~= data_bytes(a) + data_bytes(b));
    }
}

/// A run of entries is a run of bytes.
proof fn lemma_data_subrange(entries: Seq<(u64, u64)>, i: int, j: int)
    requires
        0 <= i <= j <= entries.len(),
    ensures
        data_bytes(entries).subrange(ENTRY_BYTES * i, ENTRY_BYTES * j) == data_bytes(
            entries.subrange(i, j),
        ),
        ENTRY_BYTES * j <= data_bytes(entries).len(),
{
    let a = entries.take(i);
    let b = entries.subrange(i, j);
    let c = entries.skip(j);
    assert(a + b + c =~= entries);
    lemma_data_append(a + b, c);
    lemma_data_append(a, b);
    lemma_data_len(a);
    lemma_data_len(b);
    lemma_data_len(c);
    assert(data_bytes(entries).subrange(ENTRY_BYTES * i, ENTRY_BYTES * j) =~= data_bytes(b));
}

proof fn lemma_block_entries_push(entries: Seq<(u64, u64)>, entry: (u64, u64), k: nat)
    requires
        BLOCK_ENTRIES * (k + 1) <= entries.len(),
    ensures
        block_entries(entries.push(entry), k) == block_entries(entries, k),
        block_ref(entries.push(entry), k) == block_ref(entries, k),
{
    assert(block_entries(entries.push(entry), k) =~= block_entries(entries, k));
}

impl SparseTableWriter {
    /// Between operations: whole blocks written, fewer entries than a block waiting.
    pub closed spec fn wf(&self) -> bool {
        self.inv() && self.entries@.len() - BLOCK_ENTRIES * self.index@.len() < BLOCK_ENTRIES
    }

    spec fn inv(&self) -> bool {
        let entries = self.entries@;
        let done = BLOCK_ENTRIES * self.index@.len();
        &&& hashes_ascend(entries)
        &&& self.entry_count == entries.len()
        &&& self.last_hash == if entries.len() == 0 {
            None
        } else {
            Some(entries.last().0)
        }
        &&& done <= entries.len() <= done + BLOCK_ENTRIES
        &&& self.out@ == magic() + data_bytes(entries.take(done as int))
        &&& self.block@ == data_bytes(entries.skip(done as int))
        &&& done < entries.len() ==> self.block_first_hash == entries[done as int].0
        &&& forall|k: int|
            0 <= k < self.index@.len() ==> (#[trigger] self.index@[k]).block() == block_ref(
                entries,
                k as nat,
            )
    }

    /// An empty table.
    pub fn new() -> (writer: SparseTableWriter)
        ensures
            writer.wf(),
            writer@ == Seq::<(u64, u64)>::empty(),
    {
        let mut out: Vec<u8> = Vec::new();
        out.extend_from_slice(vstd::array::array_as_slice(&SPARSE_TABLE_MAGIC));
        let writer = SparseTableWriter {
            out,
            block: Vec::new(),
            block_first_hash: 0,
            last_hash: None,
            entry_count: 0,
            index: Vec::new(),
            entries: Ghost(Seq::empty()),
        };
        proof {
            let entries = Seq::<(u64, u64)>::empty();
            assert(writer.out@ =~= magic() + data_bytes(entries.take(0)));
            assert(writer.block@ =~= data_bytes(entries.skip(0)));
        }
        writer
    }

    /// Add an entry; hashes must come in ascending order, each once.
    pub fn insert(&mut self, hash: u64, value: u64) -> (inserted: Result<(), IndexError>)
        requires
            old(self).wf(),
        ensures
            final(self).wf(),
            match inserted {
                Ok(_) => (old(self)@.len() > 0 ==> old(self)@.last().0 < hash) && final(self)@
                    == old(self)@.push((hash, value)),
                Err(e) => old(self)@.len() > 0 && hash <= old(self)@.last().0 && e
                    == IndexError::TableOrder && final(self)@ == old(self)@,
            },
    {
        if let Some(last) = self.last_hash {
            if hash <= last {
                return Err(IndexError::TableOrder);
            }
        }
        let ghost before = self.entries@;
        let ghost done = BLOCK_ENTRIES * self.index@.len();
        let written: usize = self.out.len();
        proof {
            lemma_data_len(before.take(done as int));
            lemma_data_len(before.skip(done as int));
            assert(written >= ENTRY_BYTES * done);
        }
        if self.block.len() == 0 {
            self.block_first_hash = hash;
        }
        put_u64_be(&mut self.block, hash);
        put_u64_be(&mut self.block, value);
        self.last_hash = Some(hash);
        self.entry_count = self.entry_count + 1;
        self.entries = Ghost(before.push((hash, value)));
        proof {
            let entries = before.push((hash, value));
            assert(entries.take(done as int) =~= before.take(done as int));
            assert(entries.skip(done as int) =~= before.skip(done as int).push((hash, value)));
            lemma_data_push(before.skip(done as int), (hash, value));
            assert(self.block@ =~= data_bytes(entries.skip(done as int)));
            assert forall|i: int, j: int| 0 <= i < j < entries.len() implies entries[i].0
                < entries[j].0 by {
                if j == before.len() && i < before.len() - 1 {
                    assert(before[i].0 < before[before.len() - 1].0);
                }
            }
            assert forall|k: int| 0 <= k < self.index@.len() implies (
            #[trigger] self.index@[k]).block() == block_ref(entries, k as nat) by {
                lemma_block_entries_push(before, (hash, value), k as nat);
            }
            lemma_data_len(entries.skip(done as int));
        }
        if self.block.len() >= BLOCK_BYTES {
            self.flush_block();
        }
        Ok(())
    }

    /// Write the waiting entries as a block.
    fn flush_block(&mut self)
        requires
            old(self).inv(),
        ensures
            old(self).entries@.len() % BLOCK_ENTRIES as nat == 0 ==> final(self).wf(),
            final(self).entries@ == old(self).entries@,
            final(self).index@.len() == block_count(old(self).entries@.len()),
            final(self).out@ == magic() + data_bytes(old(self).entries@),
            final(self).entry_count == old(self).entry_count,
            forall|k: int|
                0 <= k < final(self).index@.len() ==> (
                #[trigger] final(self).index@[k]).block() == block_ref(
                    old(self).entries@,
                    k as nat,
                ),
    {
        let ghost entries = self.entries@;
        let ghost m = self.index@.len();
        let ghost done = BLOCK_ENTRIES * m;
        proof {
            lemma_data_len(entries.take(done as int));
            lemma_data_len(entries.skip(done as int));
        }
        if self.block.len() == 0 {
            assert(entries.take(done as int) =~= entries);
            return ;
        }
        let hash = sha256(self.block.as_slice());
        let offset: u64 = self.out.len() as u64;
        let len: u64 = self.block.len() as u64;
        self.index.push(
            SparseBlockRef { first_hash: self.block_first_hash, offset, len, hash },
        );
        self.out.append(&mut self.block);
        proof {
            assert(block_entries(entries, m) =~= entries.skip(done as int));
            lemma_data_append(entries.take(done as int), entries.skip(done as int));
            assert(entries.take(done as int) + entries.skip(done as int) =~= entries);
            assert(self.out@ =~= magic() + data_bytes(entries));
            assert(self.index@[m as int].block() =~= block_ref(entries, m));
            if entries.len() % BLOCK_ENTRIES as nat == 0 {
                assert(entries.take(entries.len() as int) =~= entries);
                assert(entries.skip(entries.len() as int) =~= Seq::<(u64, u64)>::empty());
            }
        }
    }

    /// The finished table.
    pub fn finish(self) -> (bytes: Vec<u8>)
        requires
            self.wf(),
        ensures
            bytes@ == table_bytes(self@),
    {
        let mut writer = self;
        writer.flush_block();
        let ghost entries = writer.entries@;
        let ghost n = entries.len();
        proof {
            lemma_data_len(entries);
        }
        let index_offset: u64 = writer.out.len() as u64;
        let blocks: u64 = writer.index.len() as u64;
        let mut out: Vec<u8> = Vec::new();
        out.append(&mut writer.out);
        let ghost body = out@;
        let mut k: usize = 0;
        assert(body + index_bytes(entries, 0) =~= out@);
        while k < writer.index.len()
            invariant
                k <= writer.index.len(),
                writer.index@.len() == block_count(n),
                n == entries.len(),
                16 * n + 8 <= u64::MAX,
                forall|j: int|
                    0 <= j < writer.index@.len() ==> (#[trigger] writer.index@[j]).block()
                        == block_ref(entries, j as nat),
                out@ == body + index_bytes(entries, k as nat),
            decreases writer.index.len() - k,
        {
            let block: SparseBlockRef = writer.index[k];
            let ghost before = out@;
            assert(block.block() == block_ref(entries, k as nat));
            assert(block.offset == 8 + BLOCK_BYTES * k);
            put_u64_le(&mut out, block.first_hash);
            put_u64_le(&mut out, block.offset);
            out.extend_from_slice(vstd::array::array_as_slice(&block.hash));
            assert(out@ =~= before + index_entry(entries, k as nat));
            assert(out@ =~= body + index_bytes(entries, (k + 1) as nat));
            k = k + 1;
        }
        let ghost indexed = out@;
        put_u64_le(&mut out, writer.entry_count);
        put_u64_le(&mut out, blocks);
        put_u64_le(&mut out, index_offset);
        out.extend_from_slice(vstd::array::array_as_slice(&SPARSE_TABLE_MAGIC));
        assert(out@ =~= indexed + footer_bytes(entries));
        assert(out@ =~= table_bytes(entries));
        out
    }
}

/// Parsed block index of a table; the blocks themselves are read separately.
#[derive(Debug)]
pub struct SparseTableIndex {
    pub entry_count: u64,
    pub blocks: Vec<SparseBlockRef>,
}

pub open spec fn block_views(blocks: Seq<SparseBlockRef>) -> Seq<BlockView> {
    Seq::new(blocks.len(), |k: int| blocks[k].block())
}

/// The number in eight bytes of `bytes` from `at`.
pub open spec fn field(bytes: Seq<u8>, at: int) -> nat {
    crate::bits::le_value(bytes.subrange(at, at + 8))
}

/// Offset of block `k` according to index `index`; past the last block the index starts.
pub open spec fn listed_offset(index: Seq<u8>, n: nat, index_offset: nat, k: int) -> nat {
    if k < n {
        field(index, INDEX_ENTRY_BYTES * k + 8)
    } else {
        index_offset
    }
}

/// Block `k` as the index lists it: it reaches up to the next one.
pub open spec fn listed_block(index: Seq<u8>, n: nat, index_offset: nat, k: int) -> BlockView {
    let offset = listed_offset(index, n, index_offset, k);
    BlockView {
        first_hash: field(index, INDEX_ENTRY_BYTES * k) as u64,
        offset: offset as u64,
        len: (listed_offset(index, n, index_offset, k + 1) - offset) as u64,
        hash: index.subrange(INDEX_ENTRY_BYTES * k + 16, INDEX_ENTRY_BYTES * k + 48),
    }
}

/// The first thing wrong with the listed blocks from `k` on.
pub open spec fn listing_error(index: Seq<u8>, n: nat, index_offset: nat, k: int) -> Option<
    IndexError,
>
    decreases n - k,
{
    let offset = listed_offset(index, n, index_offset, k);
    let next = listed_offset(index, n, index_offset, k + 1);
    if k >= n {
        None
    } else if k == 0 && offset != 8 {
        Some(IndexError::TableBlockGap)
    } else if next < offset {
        Some(IndexError::TableBlockUnderflow)
    } else if next == offset || (next - offset) % ENTRY_BYTES as int != 0 || next - offset
        > BLOCK_BYTES {
        Some(IndexError::TableBlockLength)
    } else {
        listing_error(index, n, index_offset, k + 1)
    }
}

/// First hashes strictly ascend.
pub open spec fn blocks_ascend(blocks: Seq<BlockView>) -> bool {
    forall|i: int, j: int|
        0 <= i < j < blocks.len() ==> blocks[i].first_hash < blocks[j].first_hash
}

/// Entries of the first `k` blocks.
pub open spec fn capacity(blocks: Seq<BlockView>, k: nat) -> nat
    decreases k,
{
    if k == 0 {
        0
    } else {
        capacity(blocks, (k - 1) as nat) + blocks[k - 1].len as nat / ENTRY_BYTES as nat
    }
}

/// What a table of `table_len` bytes that ends in `tail` says of itself: entry count and blocks.
pub open spec fn table_index(table_len: nat, tail: Seq<u8>) -> Result<
    (nat, Seq<BlockView>),
    IndexError,
> {
    let footer = tail.skip(tail.len() - FOOTER_BYTES);
    let entry_count = field(footer, 0);
    let n = field(footer, 8);
    let index_offset = field(footer, 16);
    let tail_start = table_len - tail.len();
    let index = tail.subrange(index_offset - tail_start, tail.len() - FOOTER_BYTES);
    let blocks = Seq::new(n, |k: int| listed_block(index, n, index_offset, k));
    if table_len < 8 + FOOTER_BYTES || tail.len() < FOOTER_BYTES || tail.len() > table_len {
        Err(IndexError::TableTruncated)
    } else if footer.subrange(24, 32) != magic() {
        Err(IndexError::TableMagic)
    } else if n * INDEX_ENTRY_BYTES > u64::MAX {
        Err(IndexError::TableIndexOverflow)
    } else if index_offset + n * INDEX_ENTRY_BYTES + FOOTER_BYTES != table_len {
        Err(IndexError::TableIndexGap)
    } else if tail_start > index_offset {
        Err(IndexError::TableTailShort)
    } else {
        match listing_error(index, n, index_offset, 0) {
            Some(e) => Err(e),
            None => if !blocks_ascend(blocks) {
                Err(IndexError::TableUnsorted)
            } else if capacity(blocks, n) != entry_count {
                Err(IndexError::TableEntryCount)
            } else {
                Ok((entry_count, blocks))
            },
        }
    }
}

impl SparseTableIndex {
    /// Blocks are in hash order.
    pub open spec fn wf(&self) -> bool {
        blocks_ascend(block_views(self.blocks@))
    }

    /// Parse the index and footer out of the table's last bytes. `tail` must hold at least the
    /// index and the footer.
    #[verifier::rlimit(30)]
    pub fn parse(table_len: u64, tail: &[u8]) -> (parsed: Result<SparseTableIndex, IndexError>)
        ensures
            match parsed {
                Ok(index) => table_index(table_len as nat, tail@) == Ok::<
                    (nat, Seq<BlockView>),
                    IndexError,
                >((index.entry_count as nat, block_views(index.blocks@))) && index.wf(),
                Err(e) => table_index(table_len as nat, tail@) == Err::<
                    (nat, Seq<BlockView>),
                    IndexError,
                >(e),
            },
    {
        if table_len < 40 || tail.len() < FOOTER_BYTES || tail.len() as u64 > table_len {
            return Err(IndexError::TableTruncated);
        }
        let footer_at: usize = tail.len() - FOOTER_BYTES;
        let ghost footer = tail@.skip(footer_at as int);
        let closing = vstd::slice::slice_subrange(tail, footer_at + 24, footer_at + 32);
        assert(closing@ =~= footer.subrange(24, 32));
        if !crate::text::bytes_eq(closing, vstd::array::array_as_slice(&SPARSE_TABLE_MAGIC)) {
            return Err(IndexError::TableMagic);
        }
        let entry_count: u64 = read_u64_le(tail, footer_at);
        let block_count: u64 = read_u64_le(tail, footer_at + 8);
        let index_offset: u64 = read_u64_le(tail, footer_at + 16);
        proof {
            assert(tail@.subrange(footer_at as int, footer_at + 8) =~= footer.subrange(0, 8));
            assert(tail@.subrange(footer_at + 8, footer_at + 16) =~= footer.subrange(8, 16));
            assert(tail@.subrange(footer_at + 16, footer_at + 24) =~= footer.subrange(16, 24));
        }
        let index_len: u64 = match block_count.checked_mul(48) {
            Some(len) => len,
            None => return Err(IndexError::TableIndexOverflow),
        };
        if index_offset > table_len || index_len > table_len - index_offset || table_len
            - index_offset - index_len != 32 {
            return Err(IndexError::TableIndexGap);
        }
        let tail_start: u64 = table_len - tail.len() as u64;
        if tail_start > index_offset {
            return Err(IndexError::TableTailShort);
        }
        let index_at: usize = (index_offset - tail_start) as usize;
        let ghost n = block_count as nat;
        let ghost index = tail@.subrange(index_at as int, footer_at as int);
        let ghost listed = Seq::new(n, |k: int| listed_block(index, n, index_offset as nat, k));
        let count: usize = block_count as usize;
        assert(index.len() == 48 * count);
        let mut blocks: Vec<SparseBlockRef> = Vec::new();
        let mut k: usize = 0;
        let mut total: u64 = 0;
        let ghost goal = table_index(table_len as nat, tail@);
        while k < count
            invariant
                k <= count,
                count == n,
                index.len() == 48 * count,
                index == tail@.subrange(index_at as int, footer_at as int),
                index_at <= footer_at <= tail.len(),
                listed == Seq::new(n, |j: int| listed_block(index, n, index_offset as nat, j)),
                blocks@.len() == k,
                block_views(blocks@) =~= listed.take(k as int),
                goal == table_index(table_len as nat, tail@),
                listing_error(index, n, index_offset as nat, 0) == listing_error(
                    index,
                    n,
                    index_offset as nat,
                    k as int,
                ),
                listing_error(index, n, index_offset as nat, 0) matches Some(e) ==> goal == Err::<
                    (nat, Seq<BlockView>),
                    IndexError,
                >(e),
                total == capacity(listed, k as nat),
                k > 0 ==> 16 * total <= listed_offset(index, n, index_offset as nat, k as int),
                k == 0 ==> total == 0,
            decreases count - k,
        {
            let at: usize = index_at + 48 * k;
            let first_hash: u64 = read_u64_le(tail, at);
            let offset: u64 = read_u64_le(tail, at + 8);
            let hash = read_hash(tail, at + 16);
            proof {
                assert(tail@.subrange(at as int, at + 8) =~= index.subrange(48 * k, 48 * k + 8));
                assert(tail@.subrange(at + 8, at + 16) =~= index.subrange(
                    48 * k + 8,
                    48 * k + 16,
                ));
                assert(tail@.subrange(at + 16, at + 48) =~= index.subrange(
                    48 * k + 16,
                    48 * k + 48,
                ));
            }
            if k == 0 && offset != 8 {
                return Err(IndexError::TableBlockGap);
            }
            let next: u64 = if k + 1 < count {
                assert(tail@.subrange(at + 56, at + 64) =~= index.subrange(
                    48 * (k + 1) + 8,
                    48 * (k + 1) + 16,
                ));
                read_u64_le(tail, at + 56)
            } else {
                index_offset
            };
            assert(next == listed_offset(index, n, index_offset as nat, k + 1));
            if next < offset {
                return Err(IndexError::TableBlockUnderflow);
            }
            let len: u64 = next - offset;
            if len == 0 || len % 16 != 0 || len > 131072 {
                return Err(IndexError::TableBlockLength);
            }
            let ghost before = blocks@;
            blocks.push(SparseBlockRef { first_hash, offset, len, hash });
            proof {
                assert(blocks@[k as int].block() =~= listed[k as int]);
                assert(block_views(blocks@) =~= block_views(before).push(blocks@[k as int].block()));
            }
            total = total + len / 16;
            k = k + 1;
        }
        assert(block_views(blocks@) =~= listed);
        let mut i: usize = 1;
        while i < blocks.len()
            invariant
                1 <= i,
                blocks.len() == 0 || i <= blocks.len(),
                listed == block_views(blocks@),
                forall|a: int, b: int|
                    0 <= a < b < i && b < blocks.len() ==> blocks@[a].first_hash
                        < blocks@[b].first_hash,
                goal == table_index(table_len as nat, tail@),
                !blocks_ascend(listed) ==> goal == Err::<(nat, Seq<BlockView>), IndexError>(
                    IndexError::TableUnsorted,
                ),
            decreases blocks.len() - i,
        {
            if blocks[i - 1].first_hash >= blocks[i].first_hash {
                assert(!(listed[i - 1].first_hash < listed[i as int].first_hash));
                return Err(IndexError::TableUnsorted);
            }
            assert forall|a: int, b: int|
                0 <= a < b < i + 1 && b < blocks.len() implies blocks@[a].first_hash
                < blocks@[b].first_hash by {
                if b == i && a < i - 1 {
                    assert(blocks@[a].first_hash < blocks@[i - 1].first_hash);
                }
            }
            i = i + 1;
        }
        assert(blocks_ascend(listed)) by {
            assert forall|a: int, b: int|
                0 <= a < b < listed.len() implies listed[a].first_hash < listed[b].first_hash by {
                assert(blocks@[a].first_hash < blocks@[b].first_hash);
            }
        }
        if total != entry_count {
            return Err(IndexError::TableEntryCount);
        }
        Ok(SparseTableIndex { entry_count, blocks })
    }

    /// The block that may hold `hash`: the last one that does not start past it.
    pub fn block_for(&self, hash: u64) -> (block: Option<usize>)
        requires
            self.wf(),
        ensures
            match block {
                Some(k) => k < self.blocks@.len() && block_position(
                    block_views(self.blocks@),
                    hash,
                ) == Some(k as nat),
                None => block_position(block_views(self.blocks@), hash) is None,
            },
    {
        let ghost views = block_views(self.blocks@);
        let mut low: usize = 0;
        let mut high: usize = self.blocks.len();
        while low < high
            invariant
                self.wf(),
                views == block_views(self.blocks@),
                low <= high <= self.blocks.len(),
                forall|k: int| 0 <= k < low ==> views[k].first_hash <= hash,
                forall|k: int| high <= k < views.len() ==> views[k].first_hash > hash,
            decreases high - low,
        {
            let mid: usize = low + (high - low) / 2;
            assert(views[mid as int].first_hash == self.blocks@[mid as int].first_hash);
            if self.blocks[mid].first_hash <= hash {
                assert forall|k: int| 0 <= k < mid + 1 implies views[k].first_hash <= hash by {
                    if k < mid {
                        assert(views[k].first_hash < views[mid as int].first_hash);
                    }
                }
                low = mid + 1;
            } else {
                assert forall|k: int| mid <= k < views.len() implies views[k].first_hash
                    > hash by {
                    if k > mid {
                        assert(views[mid as int].first_hash < views[k].first_hash);
                    }
                }
                high = mid;
            }
        }
        proof {
            lemma_block_position(views, hash, low as nat);
        }
        if low == 0 {
            None
        } else {
            Some(low - 1)
        }
    }
}

/// The last block that does not start past `hash`.
pub open spec fn block_position(blocks: Seq<BlockView>, hash: u64) -> Option<nat>
    decreases blocks.len(),
{
    if blocks.len() == 0 {
        None
    } else if blocks.last().first_hash <= hash {
        Some((blocks.len() - 1) as nat)
    } else {
        block_position(blocks.drop_last(), hash)
    }
}

proof fn lemma_block_position(blocks: Seq<BlockView>, hash: u64, low: nat)
    requires
        low <= blocks.len(),
        forall|k: int| 0 <= k < low ==> (#[trigger] blocks[k]).first_hash <= hash,
        forall|k: int| low <= k < blocks.len() ==> (#[trigger] blocks[k]).first_hash > hash,
    ensures
        block_position(blocks, hash) == if low == 0 {
            None
        } else {
            Some((low - 1) as nat)
        },
    decreases blocks.len(),
{
    if low < blocks.len() {
        assert(blocks[blocks.len() - 1].first_hash > hash);
        let front = blocks.drop_last();
        assert forall|k: int| 0 <= k < low implies (#[trigger] front[k]).first_hash <= hash by {
            assert(front[k] == blocks[k]);
        }
        assert forall|k: int| low <= k < front.len() implies (#[trigger] front[k]).first_hash
            > hash by {
            assert(front[k] == blocks[k]);
        }
        lemma_block_position(front, hash, low);
    } else if low > 0 {
        assert(blocks[low - 1].first_hash <= hash);
    }
}

/// Hash of entry `i` of a block.
pub open spec fn entry_hash(block: Seq<u8>, i: int) -> u64 {
    crate::bits::be_value(block.subrange(ENTRY_BYTES * i, ENTRY_BYTES * i + 8)) as u64
}

/// Value of entry `i` of a block.
pub open spec fn entry_value(block: Seq<u8>, i: int) -> u64 {
    crate::bits::be_value(block.subrange(ENTRY_BYTES * i + 8, ENTRY_BYTES * i + 16)) as u64
}

/// Bisection of entries `low..high` for `hash`.
pub open spec fn bisected(block: Seq<u8>, hash: u64, low: int, high: int) -> Option<u64>
    decreases high - low,
{
    if low >= high {
        None
    } else {
        let mid = low + (high - low) / 2;
        if entry_hash(block, mid) < hash {
            bisected(block, hash, mid + 1, high)
        } else if entry_hash(block, mid) > hash {
            bisected(block, hash, low, mid)
        } else {
            Some(entry_value(block, mid))
        }
    }
}

/// Look `hash` up in one block's bytes.
pub fn lookup_in_block(block: &[u8], hash: u64) -> (found: Result<Option<u64>, IndexError>)
    ensures
        match found {
            Ok(value) => block@.len() > 0 && block@.len() % ENTRY_BYTES as nat == 0 && value
                == bisected(block@, hash, 0, block@.len() as int / ENTRY_BYTES as int),
            Err(e) => (block@.len() == 0 || block@.len() % ENTRY_BYTES as nat != 0) && e
                == IndexError::TableBlockLength,
        },
{
    if block.len() == 0 || block.len() % ENTRY_BYTES != 0 {
        return Err(IndexError::TableBlockLength);
    }
    let entries: usize = block.len() / ENTRY_BYTES;
    let mut low: usize = 0;
    let mut high: usize = entries;
    while low < high
        invariant
            low <= high <= entries,
            entries * 16 == block.len(),
            bisected(block@, hash, 0, entries as int) == bisected(
                block@,
                hash,
                low as int,
                high as int,
            ),
        decreases high - low,
    {
        let mid: usize = low + (high - low) / 2;
        let here: u64 = read_u64_be(block, 16 * mid);
        if here < hash {
            low = mid + 1;
        } else if here > hash {
            high = mid;
        } else {
            return Ok(Some(read_u64_be(block, 16 * mid + 8)));
        }
    }
    Ok(None)
}

pub proof fn lemma_index_len(entries: Seq<(u64, u64)>, m: nat)
    ensures
        index_bytes(entries, m).len() == INDEX_ENTRY_BYTES * m,
    decreases m,
{
    broadcast use vstd::array::group_array_axioms;

    if m > 0 {
        lemma_index_len(entries, (m - 1) as nat);
    }
}

proof fn lemma_index_entry(entries: Seq<(u64, u64)>, m: nat, k: nat)
    requires
        k < m,
    ensures
        index_bytes(entries, m).subrange(INDEX_ENTRY_BYTES * k, INDEX_ENTRY_BYTES * (k + 1))
            == index_entry(entries, k),
    decreases m,
{
    broadcast use vstd::array::group_array_axioms;

    lemma_index_len(entries, m);
    lemma_index_len(entries, (m - 1) as nat);
    let all = index_bytes(entries, m);
    if k < m - 1 {
        lemma_index_entry(entries, (m - 1) as nat, k);
        assert(all.subrange(INDEX_ENTRY_BYTES * k, INDEX_ENTRY_BYTES * (k + 1)) =~= index_bytes(
            entries,
            (m - 1) as nat,
        ).subrange(INDEX_ENTRY_BYTES * k, INDEX_ENTRY_BYTES * (k + 1)));
    } else {
        assert(all.subrange(INDEX_ENTRY_BYTES * k, INDEX_ENTRY_BYTES * (k + 1)) =~= index_entry(
            entries,
            k,
        ));
    }
}

/// The blocks of a table.
pub open spec fn table_blocks(entries: Seq<(u64, u64)>) -> Seq<BlockView> {
    Seq::new(block_count(entries.len()), |k: int| block_ref(entries, k as nat))
}

/// How long a table is.
pub proof fn lemma_table_len(entries: Seq<(u64, u64)>)
    ensures
        table_bytes(entries).len() == 8 + ENTRY_BYTES * entries.len() + INDEX_ENTRY_BYTES
            * block_count(entries.len()) + FOOTER_BYTES,
{
    broadcast use vstd::array::group_array_axioms;

    lemma_data_len(entries);
    lemma_index_len(entries, block_count(entries.len()));
}

proof fn lemma_listed(entries: Seq<(u64, u64)>, k: int)
    requires
        table_bytes(entries).len() <= u64::MAX,
        0 <= k < block_count(entries.len()),
    ensures
        ({
            let n = block_count(entries.len());
            let index = index_bytes(entries, n);
            &&& field(index, INDEX_ENTRY_BYTES * k) == entries[BLOCK_ENTRIES * k].0
            &&& field(index, INDEX_ENTRY_BYTES * k + 8) == 8 + BLOCK_BYTES * k
            &&& index.subrange(INDEX_ENTRY_BYTES * k + 16, INDEX_ENTRY_BYTES * k + 48)
                == crate::digest::sha256_of(data_bytes(block_entries(entries, k as nat)))@
        }),
{
    broadcast use vstd::array::group_array_axioms;

    lemma_table_len(entries);
    let n = block_count(entries.len());
    let index = index_bytes(entries, n);
    let entry = index_entry(entries, k as nat);
    lemma_index_len(entries, n);
    lemma_index_entry(entries, n, k as nat);
    let at = INDEX_ENTRY_BYTES * k;
    let first = entries[BLOCK_ENTRIES * k].0;
    crate::bits::lemma_u64_bytes(first);
    crate::bits::lemma_u64_bytes((8 + BLOCK_BYTES * k) as u64);
    assert(index.subrange(at, at + 8) =~= entry.subrange(0, 8));
    assert(entry.subrange(0, 8) =~= crate::bits::le_bytes(first as nat, 8));
    assert(index.subrange(at + 8, at + 16) =~= entry.subrange(8, 16));
    assert(entry.subrange(8, 16) =~= crate::bits::le_bytes((8 + BLOCK_BYTES * k) as nat, 8));
    assert(index.subrange(at + 16, at + 48) =~= entry.subrange(16, 48));
    assert(entry.subrange(16, 48) =~= crate::digest::sha256_of(
        data_bytes(block_entries(entries, k as nat)),
    )@);
}

proof fn lemma_listing_ok(entries: Seq<(u64, u64)>, k: int)
    requires
        table_bytes(entries).len() <= u64::MAX,
        0 <= k <= block_count(entries.len()),
    ensures
        ({
            let n = block_count(entries.len());
            listing_error(
                index_bytes(entries, n),
                n,
                (8 + ENTRY_BYTES * entries.len()) as nat,
                k,
            ) is None
        }),
    decreases block_count(entries.len()) - k,
{
    lemma_table_len(entries);
    let n = block_count(entries.len());
    if k < n {
        lemma_listed(entries, k);
        if k + 1 < n {
            lemma_listed(entries, k + 1);
        }
        lemma_listing_ok(entries, k + 1);
    }
}

proof fn lemma_capacity(entries: Seq<(u64, u64)>, k: nat)
    requires
        table_bytes(entries).len() <= u64::MAX,
        k <= block_count(entries.len()),
    ensures
        capacity(table_blocks(entries), k) == if BLOCK_ENTRIES * k < entries.len() {
            BLOCK_ENTRIES * k
        } else {
            entries.len() as int
        },
    decreases k,
{
    lemma_table_len(entries);
    if k > 0 {
        lemma_capacity(entries, (k - 1) as nat);
    }
}

/// A table says of itself what was written, whichever of its last bytes are at hand, as long as
/// they hold the index.
pub proof fn written_table_parses(entries: Seq<(u64, u64)>, start: nat)
    requires
        hashes_ascend(entries),
        table_bytes(entries).len() <= u64::MAX,
        start <= 8 + ENTRY_BYTES * entries.len(),
    ensures
        table_index(table_bytes(entries).len(), table_bytes(entries).skip(start as int)) == Ok::<
            (nat, Seq<BlockView>),
            IndexError,
        >((entries.len(), table_blocks(entries))),
{
    broadcast use vstd::array::group_array_axioms;

    lemma_table_len(entries);
    let n = block_count(entries.len());
    let bytes = table_bytes(entries);
    let tail = bytes.skip(start as int);
    let index = index_bytes(entries, n);
    let footer = footer_bytes(entries);
    let index_offset = (8 + ENTRY_BYTES * entries.len()) as nat;
    lemma_data_len(entries);
    lemma_index_len(entries, n);
    crate::bits::lemma_u64_bytes(entries.len() as u64);
    crate::bits::lemma_u64_bytes(n as u64);
    crate::bits::lemma_u64_bytes(index_offset as u64);
    assert(tail.skip(tail.len() - FOOTER_BYTES) =~= footer);
    assert(footer.subrange(0, 8) =~= crate::bits::le_bytes(entries.len(), 8));
    assert(footer.subrange(8, 16) =~= crate::bits::le_bytes(n, 8));
    assert(footer.subrange(16, 24) =~= crate::bits::le_bytes(index_offset, 8));
    assert(footer.subrange(24, 32) =~= magic());
    assert(tail.subrange(index_offset - start, tail.len() - FOOTER_BYTES) =~= index);
    lemma_listing_ok(entries, 0);
    let listed = Seq::new(n, |k: int| listed_block(index, n, index_offset, k));
    assert forall|k: int| 0 <= k < n implies listed[k] == #[trigger] table_blocks(entries)[k] by {
        lemma_listed(entries, k);
        if k + 1 < n {
            lemma_listed(entries, k + 1);
        }
        assert(listed[k] =~= table_blocks(entries)[k]);
    }
    assert(listed =~= table_blocks(entries));
    assert(blocks_ascend(listed)) by {
        assert forall|i: int, j: int| 0 <= i < j < listed.len() implies listed[i].first_hash
            < listed[j].first_hash by {
            assert(listed[i] == table_blocks(entries)[i]);
            assert(listed[j] == table_blocks(entries)[j]);
            assert(entries[BLOCK_ENTRIES * i].0 < entries[BLOCK_ENTRIES * j].0);
        }
    }
    lemma_capacity(entries, n);
}

pub proof fn lemma_entry_fields(entries: Seq<(u64, u64)>, i: int)
    requires
        0 <= i < entries.len(),
    ensures
        entry_hash(data_bytes(entries), i) == entries[i].0,
        entry_value(data_bytes(entries), i) == entries[i].1,
{
    let block = data_bytes(entries);
    let one = entries.subrange(i, i + 1);
    lemma_data_subrange(entries, i, i + 1);
    assert(one =~= Seq::<(u64, u64)>::empty().push(entries[i]));
    lemma_data_push(Seq::<(u64, u64)>::empty(), entries[i]);
    crate::bits::lemma_u64_bytes(entries[i].0);
    crate::bits::lemma_u64_bytes(entries[i].1);
    let bytes = block.subrange(ENTRY_BYTES * i, ENTRY_BYTES * (i + 1));
    assert(bytes =~= entry_bytes(entries[i]));
    assert(block.subrange(ENTRY_BYTES * i, ENTRY_BYTES * i + 8) =~= bytes.subrange(0, 8));
    assert(bytes.subrange(0, 8) =~= crate::bits::be_bytes(entries[i].0 as nat, 8));
    assert(block.subrange(ENTRY_BYTES * i + 8, ENTRY_BYTES * i + 16) =~= bytes.subrange(8, 16));
    assert(bytes.subrange(8, 16) =~= crate::bits::be_bytes(entries[i].1 as nat, 8));
}

/// The value stored with `hash`, if any.
pub open spec fn value_of(entries: Seq<(u64, u64)>, hash: u64) -> Option<u64>
    decreases entries.len(),
{
    if entries.len() == 0 {
        None
    } else if entries.last().0 == hash {
        Some(entries.last().1)
    } else {
        value_of(entries.drop_last(), hash)
    }
}

proof fn lemma_value_at(entries: Seq<(u64, u64)>, hash: u64, i: int)
    requires
        hashes_ascend(entries),
        0 <= i < entries.len(),
        entries[i].0 == hash,
    ensures
        value_of(entries, hash) == Some(entries[i].1),
    decreases entries.len(),
{
    if i < entries.len() - 1 {
        assert(entries[i].0 < entries[entries.len() - 1].0);
        lemma_value_at(entries.drop_last(), hash, i);
    }
}

proof fn lemma_value_absent(entries: Seq<(u64, u64)>, hash: u64)
    requires
        forall|i: int| 0 <= i < entries.len() ==> (#[trigger] entries[i]).0 != hash,
    ensures
        value_of(entries, hash) is None,
    decreases entries.len(),
{
    if entries.len() > 0 {
        assert(entries[entries.len() - 1].0 != hash);
        let front = entries.drop_last();
        assert forall|i: int| 0 <= i < front.len() implies (#[trigger] front[i]).0 != hash by {
            assert(front[i] == entries[i]);
        }
        lemma_value_absent(front, hash);
    }
}

proof fn lemma_bisected(entries: Seq<(u64, u64)>, hash: u64, low: int, high: int)
    requires
        hashes_ascend(entries),
        0 <= low <= high <= entries.len(),
        forall|i: int| 0 <= i < low ==> (#[trigger] entries[i]).0 < hash,
        forall|i: int| high <= i < entries.len() ==> (#[trigger] entries[i]).0 > hash,
    ensures
        bisected(data_bytes(entries), hash, low, high) == value_of(entries, hash),
    decreases high - low,
{
    if low >= high {
        lemma_value_absent(entries, hash);
    } else {
        let mid = low + (high - low) / 2;
        lemma_entry_fields(entries, mid);
        if entries[mid].0 < hash {
            assert forall|i: int| 0 <= i < mid + 1 implies (#[trigger] entries[i]).0 < hash by {
                if i < mid {
                    assert(entries[i].0 < entries[mid].0);
                }
            }
            lemma_bisected(entries, hash, mid + 1, high);
        } else if entries[mid].0 > hash {
            assert forall|i: int| mid <= i < entries.len() implies (#[trigger] entries[i]).0
                > hash by {
                if i > mid {
                    assert(entries[mid].0 < entries[i].0);
                }
            }
            lemma_bisected(entries, hash, low, mid);
        } else {
            lemma_value_at(entries, hash, mid);
        }
    }
}

/// A block's bytes give back the value of every hash in the block, and none for any other.
pub proof fn block_lookup_finds_entries(entries: Seq<(u64, u64)>, hash: u64)
    requires
        hashes_ascend(entries),
    ensures
        bisected(
            data_bytes(entries),
            hash,
            0,
            data_bytes(entries).len() as int / ENTRY_BYTES as int,
        ) == value_of(entries, hash),
{
    lemma_data_len(entries);
    lemma_bisected(entries, hash, 0, entries.len() as int);
}

/// Block `k` lies in the table where its reference says.
pub proof fn block_bytes_in_table(entries: Seq<(u64, u64)>, k: nat)
    requires
        table_bytes(entries).len() <= u64::MAX,
        k < block_count(entries.len()),
    ensures
        ({
            let block = table_blocks(entries)[k as int];
            table_bytes(entries).subrange(block.offset as int, block.offset + block.len)
                == data_bytes(block_entries(entries, k))
        }),
{
    lemma_table_len(entries);
    let block = table_blocks(entries)[k as int];
    let start = BLOCK_ENTRIES * k;
    let end = if BLOCK_ENTRIES * (k + 1) < entries.len() {
        BLOCK_ENTRIES * (k + 1)
    } else {
        entries.len() as int
    };
    lemma_data_subrange(entries, start, end);
    lemma_data_len(entries);
    assert(table_bytes(entries).subrange(block.offset as int, block.offset + block.len)
        =~= data_bytes(entries).subrange(ENTRY_BYTES * start, ENTRY_BYTES * end));
}

/// Looking a hash up in the block that the index picks finds exactly what was inserted: the value
/// of every inserted hash, and nothing for any other hash.
pub proof fn table_lookup_finds_inserted(entries: Seq<(u64, u64)>, hash: u64)
    requires
        hashes_ascend(entries),
        table_bytes(entries).len() <= u64::MAX,
    ensures
        match block_position(table_blocks(entries), hash) {
            None => value_of(entries, hash) is None,
            Some(k) => k < block_count(entries.len()) && bisected(
                data_bytes(block_entries(entries, k)),
                hash,
                0,
                data_bytes(block_entries(entries, k)).len() as int / ENTRY_BYTES as int,
            ) == value_of(entries, hash),
        },
{
    lemma_table_len(entries);
    let blocks = table_blocks(entries);
    let n = block_count(entries.len());
    let low = lemma_split_at(entries, hash, n);
    lemma_block_position(blocks, hash, low);
    if low == 0 {
        if entries.len() > 0 {
            assert(blocks[0].first_hash > hash);
            assert forall|i: int| 0 <= i < entries.len() implies (#[trigger] entries[i]).0
                != hash by {
                if i > 0 {
                    assert(entries[0].0 < entries[i].0);
                }
            }
        }
        lemma_value_absent(entries, hash);
    } else {
        let k = (low - 1) as nat;
        let start = BLOCK_ENTRIES * k;
        let block = block_entries(entries, k);
        assert forall|i: int, j: int| 0 <= i < j < block.len() implies block[i].0 < block[j].0 by {
            assert(entries[start + i].0 < entries[start + j].0);
        }
        block_lookup_finds_entries(block, hash);
        assert(blocks[k as int].first_hash <= hash);
        if exists|i: int| 0 <= i < block.len() && (#[trigger] block[i]).0 == hash {
            let i = choose|i: int| 0 <= i < block.len() && (#[trigger] block[i]).0 == hash;
            lemma_value_at(block, hash, i);
            assert(entries[start + i] == block[i]);
            lemma_value_at(entries, hash, start + i);
        } else {
            lemma_value_absent(block, hash);
            assert forall|i: int| 0 <= i < entries.len() implies (#[trigger] entries[i]).0
                != hash by {
                if i < start {
                    assert(entries[i].0 < entries[start].0);
                } else if i < start + block.len() {
                    assert(block[i - start] == entries[i]);
                } else {
                    assert(low < n);
                    assert(blocks[low as int].first_hash > hash);
                    let next = BLOCK_ENTRIES * low;
                    if i > next {
                        assert(entries[next].0 < entries[i].0);
                    }
                }
            }
            lemma_value_absent(entries, hash);
        }
    }
}

proof fn lemma_split_at(entries: Seq<(u64, u64)>, hash: u64, m: nat) -> (low: nat)
    requires
        hashes_ascend(entries),
        m <= block_count(entries.len()),
        forall|k: int|
            m <= k < block_count(entries.len()) ==> (
            #[trigger] table_blocks(entries)[k]).first_hash > hash,
    ensures
        low <= m,
        forall|k: int| 0 <= k < low ==> (#[trigger] table_blocks(entries)[k]).first_hash <= hash,
        forall|k: int|
            low <= k < block_count(entries.len()) ==> (
            #[trigger] table_blocks(entries)[k]).first_hash > hash,
    decreases m,
{
    let blocks = table_blocks(entries);
    if m == 0 {
        0
    } else if blocks[m - 1].first_hash <= hash {
        assert forall|k: int| 0 <= k < m implies (#[trigger] blocks[k]).first_hash <= hash by {
            if k < m - 1 {
                assert(entries[BLOCK_ENTRIES * k].0 < entries[BLOCK_ENTRIES * (m - 1)].0);
            }
        }
        m
    } else {
        lemma_split_at(entries, hash, (m - 1) as nat)
    }
}

} // verus!
