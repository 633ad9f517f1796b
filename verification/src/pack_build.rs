//! Pack building: documents laid end to end, cut into blocks, each block compressed, and the
//! compressed blocks laid end to end in packs.

use crate::digest::{hash_matches, sha256, sha256_hex};
use crate::error::IndexError;
use crate::format::{PackBlock, PACK_BLOCK_BYTES};
use crate::pack::{DocumentBlock, PackSlice};
use vstd::prelude::*;

verus! {

/// A pack is closed before it grows past this size.
pub const PACK_TARGET_BYTES: u64 = 268435456;

pub const PACK_LEVEL: i32 = 1;

/// What a zstd frame holds, if the bytes are one.
pub uninterp spec fn zstd_content(compressed: Seq<u8>) -> Option<Seq<u8>>;

/// The frame that zstd makes of bytes at a level, with or without a checksum; nothing where it
/// refuses them.
pub uninterp spec fn zstd_frame(bytes: Seq<u8>, level: i32, checksum: bool) -> Option<Seq<u8>>;

/// Calls `zstd::bulk::Compressor::new`, `include_checksum` and `compress`. What comes back is
/// determined by the arguments, memory being at hand; a frame is not empty and holds the bytes.
#[verifier::external_body]
fn zstd_compress(bytes: &[u8], level: i32, checksum: bool) -> (compressed: Option<Vec<u8>>)
    ensures
        match compressed {
            Some(frame) => zstd_frame(bytes@, level, checksum) == Some(frame@) && frame@.len() > 0
                && zstd_content(frame@) == Some(bytes@),
            None => zstd_frame(bytes@, level, checksum) is None,
        },
{
    let mut compressor = zstd::bulk::Compressor::new(level).ok()?;
    compressor.include_checksum(checksum).ok()?;
    compressor.compress(bytes).ok()
}

/// Calls `zstd::bulk::decompress`. It gives what the frame holds whenever that fits the capacity,
/// and fails on bytes that are no frame. A frame that holds more than the capacity may fail or
/// not: the buffer can be larger than asked for.
#[verifier::external_body]
fn zstd_decompress(compressed: &[u8], capacity: u32) -> (bytes: Option<Vec<u8>>)
    requires
        capacity <= i32::MAX,
    ensures
        bytes matches Some(list) ==> zstd_content(compressed@) == Some(list@),
        bytes is None ==> !(zstd_content(compressed@) matches Some(held) && held.len() <= capacity),
{
    zstd::bulk::decompress(compressed, capacity as usize).ok()
}

/// A finished pack: its bytes and the SHA-256 that names it.
#[derive(Debug)]
pub struct PackFile {
    pub bytes: Vec<u8>,
    pub hash: String,
}

/// What a segment records of a pack.
#[derive(Debug)]
pub struct PackMeta {
    pub hash: String,
    pub len: u64,
}

impl PackFile {
    pub open spec fn valid(&self) -> bool {
        self.hash@ == crate::digest::sha256_hex_of(self.bytes@)
    }

    /// What a segment says of the pack.
    pub fn meta(&self) -> (meta: PackMeta)
        ensures
            meta.hash@ == self.hash@,
            meta.len == self.bytes@.len(),
    {
        PackMeta { hash: self.hash.clone(), len: self.bytes.len() as u64 }
    }
}

#[derive(Debug)]
pub struct BuiltPacks {
    pub packs: Vec<PackFile>,
    pub blocks: Vec<PackBlock>,
}

pub open spec fn pack_views(packs: Seq<PackFile>) -> Seq<Seq<u8>> {
    packs.map_values(|pack: PackFile| pack.bytes@)
}

/// The compressed bytes of a block.
pub open spec fn block_frame(packs: Seq<Seq<u8>>, block: PackBlock) -> Seq<u8> {
    packs[block.pack as int].subrange(
        block.offset as int,
        block.offset + block.compressed_len,
    )
}

/// The bytes that a block holds.
pub open spec fn block_content(packs: Seq<Seq<u8>>, block: PackBlock) -> Seq<u8> {
    zstd_content(block_frame(packs, block))->Some_0
}

/// The block's place in its pack holds a frame with the block's hash and of its decoded length.
pub open spec fn block_stored(packs: Seq<Seq<u8>>, block: PackBlock, block_bytes: int) -> bool {
    &&& block.pack < packs.len()
    &&& block.offset + block.compressed_len <= packs[block.pack as int].len()
    &&& block.compressed_len > 0
    &&& 0 < block.decoded_len <= block_bytes
    &&& block.hash@ == crate::digest::sha256_of(block_frame(packs, block))@
    &&& zstd_content(block_frame(packs, block)) is Some
    &&& block_content(packs, block).len() == block.decoded_len
}

/// Block `k` comes right after the one before it, in its pack or at the start of the next.
pub open spec fn block_follows(blocks: Seq<PackBlock>, k: int) -> bool {
    &&& blocks[k].offset == crate::format::block_start(blocks, k)
    &&& if k == 0 {
        blocks[k].pack == 0
    } else {
        blocks[k].pack == blocks[k - 1].pack || blocks[k].pack == blocks[k - 1].pack + 1
    }
}

pub open spec fn blocks_stored(
    packs: Seq<Seq<u8>>,
    blocks: Seq<PackBlock>,
    block_bytes: int,
) -> bool {
    &&& forall|k: int|
        0 <= k < blocks.len() ==> block_stored(packs, #[trigger] blocks[k], block_bytes)
    &&& forall|k: int| 0 <= k < blocks.len() ==> #[trigger] block_follows(blocks, k)
}

/// The bytes of the first `n` blocks, laid end to end.
pub open spec fn stored(packs: Seq<Seq<u8>>, blocks: Seq<PackBlock>, n: nat) -> Seq<u8>
    decreases n,
{
    if n == 0 {
        Seq::empty()
    } else {
        stored(packs, blocks, (n - 1) as nat) + block_content(packs, blocks[n - 1])
    }
}

pub proof fn lemma_stored_len(
    packs: Seq<Seq<u8>>,
    blocks: Seq<PackBlock>,
    block_bytes: int,
    n: nat,
)
    requires
        blocks_stored(packs, blocks, block_bytes),
        n <= blocks.len(),
    ensures
        stored(packs, blocks, n).len() == crate::format::bytes_before(blocks, n),
    decreases n,
{
    if n > 0 {
        lemma_stored_len(packs, blocks, block_bytes, (n - 1) as nat);
        assert(block_stored(packs, blocks[n - 1], block_bytes));
    }
}

/// More packs, and more bytes at the end of the last one, leave the blocks' contents alone.
proof fn lemma_stored_kept(
    packs: Seq<Seq<u8>>,
    blocks: Seq<PackBlock>,
    more_packs: Seq<Seq<u8>>,
    more_blocks: Seq<PackBlock>,
    block_bytes: int,
    n: nat,
)
    requires
        blocks_stored(packs, blocks, block_bytes),
        packs.len() <= more_packs.len(),
        forall|p: int|
            0 <= p < packs.len() ==> (#[trigger] packs[p]).len() <= more_packs[p].len()
                && more_packs[p].subrange(0, packs[p].len() as int) == packs[p],
        blocks.len() <= more_blocks.len(),
        forall|k: int| 0 <= k < blocks.len() ==> #[trigger] blocks[k] == more_blocks[k],
        n <= blocks.len(),
    ensures
        stored(packs, blocks, n) == stored(more_packs, more_blocks, n),
        forall|k: int|
            0 <= k < n ==> block_stored(more_packs, #[trigger] more_blocks[k], block_bytes),
        forall|k: int| 0 <= k < n ==> #[trigger] block_follows(more_blocks, k),
        forall|k: int|
            0 <= k < n ==> block_frame(more_packs, #[trigger] more_blocks[k]) == block_frame(
                packs,
                blocks[k],
            ),
    decreases n,
{
    if n > 0 {
        lemma_stored_kept(
            packs,
            blocks,
            more_packs,
            more_blocks,
            block_bytes,
            (n - 1) as nat,
        );
        let k = n - 1;
        let block = blocks[k];
        assert(block_stored(packs, block, block_bytes) && block_follows(blocks, k));
        let p = block.pack as int;
        assert(block_frame(packs, block) =~= block_frame(more_packs, block)) by {
            assert(packs[p] == more_packs[p].subrange(0, packs[p].len() as int));
        }
        assert(more_blocks[k] == block);
        if k > 0 {
            assert(blocks[k - 1] == more_blocks[k - 1]);
        }
    }
}

/// What block `k` holds of bytes that are cut into blocks; the last block may be shorter.
pub open spec fn cut(written: Seq<u8>, block_bytes: nat, k: nat) -> Seq<u8> {
    let start = k * block_bytes;
    let end = (k + 1) * block_bytes;
    written.subrange(
        start as int,
        if end < written.len() {
            end as int
        } else {
            written.len() as int
        },
    )
}

/// The frame of block `k`.
pub open spec fn cut_frame(written: Seq<u8>, block_bytes: nat, k: nat) -> Option<Seq<u8>> {
    zstd_frame(cut(written, block_bytes, k), PACK_LEVEL, true)
}

/// A pack that holds `end` bytes is closed before a frame of `len` bytes would take it past its
/// target.
pub open spec fn closes_before(end: int, len: int, pack_bytes: u64) -> bool {
    end > 0 && (if end + len < u64::MAX {
        end + len
    } else {
        u64::MAX as int
    }) > pack_bytes
}

/// The pack and its length after a frame of `len` bytes.
pub open spec fn packed_after(place: (int, int), len: int, pack_bytes: u64) -> (int, int) {
    if closes_before(place.1, len, pack_bytes) {
        (place.0 + 1, len)
    } else {
        (place.0, place.1 + len)
    }
}

/// The pack being written and its length once the first `k` blocks are packed.
pub open spec fn pack_place(
    written: Seq<u8>,
    block_bytes: nat,
    pack_bytes: u64,
    k: nat,
) -> (int, int)
    decreases k,
{
    if k == 0 {
        (0, 0)
    } else {
        packed_after(
            pack_place(written, block_bytes, pack_bytes, (k - 1) as nat),
            cut_frame(written, block_bytes, (k - 1) as nat)->0.len() as int,
            pack_bytes,
        )
    }
}

/// What keeps block `k` from being packed: it cannot be compressed, or a length, the number of
/// its pack or the end of its frame does not fit what records it.
pub open spec fn block_fault(
    written: Seq<u8>,
    block_bytes: nat,
    pack_bytes: u64,
    k: nat,
) -> Option<IndexError> {
    match cut_frame(written, block_bytes, k) {
        None => Some(IndexError::PackCompress),
        Some(frame) => {
            let place = pack_place(written, block_bytes, pack_bytes, k + 1);
            if frame.len() > u32::MAX || cut(written, block_bytes, k).len() > u32::MAX || place.0
                > u32::MAX || place.1 > u64::MAX {
                Some(IndexError::PackTooLarge)
            } else {
                None
            }
        },
    }
}

/// The first fault among blocks `k..end`.
pub open spec fn first_fault(
    written: Seq<u8>,
    block_bytes: nat,
    pack_bytes: u64,
    k: nat,
    end: nat,
) -> Option<IndexError>
    decreases end - k,
{
    if k >= end {
        None
    } else {
        match block_fault(written, block_bytes, pack_bytes, k) {
            Some(e) => Some(e),
            None => first_fault(written, block_bytes, pack_bytes, k + 1, end),
        }
    }
}

/// What keeps `more` from being appended to `written`: the first fault of a block that it fills.
pub open spec fn extend_fault(
    written: Seq<u8>,
    more: Seq<u8>,
    block_bytes: nat,
    pack_bytes: u64,
) -> Option<IndexError> {
    first_fault(
        written + more,
        block_bytes,
        pack_bytes,
        written.len() / block_bytes,
        (written + more).len() / block_bytes,
    )
}

/// What keeps a document from being appended: where it starts cannot be recorded, or one of the
/// blocks that it fills is at fault.
pub open spec fn append_fault(
    written: Seq<u8>,
    more: Seq<u8>,
    block_bytes: nat,
    pack_bytes: u64,
) -> Option<IndexError> {
    if more.len() == 0 {
        None
    } else if written.len() / block_bytes > u32::MAX || written.len() % block_bytes > u32::MAX {
        Some(IndexError::PackTooLarge)
    } else {
        extend_fault(written, more, block_bytes, pack_bytes)
    }
}

/// What keeps the last block, which need not be full, from being packed.
pub open spec fn finish_fault(
    written: Seq<u8>,
    block_bytes: nat,
    pack_bytes: u64,
) -> Option<IndexError> {
    if written.len() % block_bytes == 0 {
        None
    } else {
        block_fault(written, block_bytes, pack_bytes, written.len() / block_bytes)
    }
}

/// The blocks and packs are all that what was written is cut into.
pub open spec fn packs_finished(
    packs: Seq<Seq<u8>>,
    blocks: Seq<PackBlock>,
    written: Seq<u8>,
    block_bytes: nat,
    pack_bytes: u64,
) -> bool {
    let n = blocks.len();
    &&& n == written.len() / block_bytes + (if written.len() % block_bytes == 0 {
        0nat
    } else {
        1
    })
    &&& blocks_laid(packs, blocks, written, block_bytes, pack_bytes)
    &&& if n == 0 {
        packs.len() == 0
    } else {
        let last = pack_place(written, block_bytes, pack_bytes, n);
        packs.len() == last.0 + 1 && packs.last().len() == last.1
    }
}

/// Block `k` of what was written lies where the blocks before it leave off, and a pack that is
/// not the last ends with its last block.
pub open spec fn block_laid(
    packs: Seq<Seq<u8>>,
    blocks: Seq<PackBlock>,
    written: Seq<u8>,
    block_bytes: nat,
    pack_bytes: u64,
    k: int,
) -> bool {
    &&& cut_frame(written, block_bytes, k as nat) == Some(block_frame(packs, blocks[k]))
    &&& blocks[k].decoded_len == cut(written, block_bytes, k as nat).len()
    &&& pack_place(written, block_bytes, pack_bytes, (k + 1) as nat) == (
        blocks[k].pack as int,
        blocks[k].offset + blocks[k].compressed_len,
    )
    &&& k > 0 && blocks[k].pack != blocks[k - 1].pack ==> packs[blocks[k - 1].pack as int].len()
        == blocks[k - 1].offset + blocks[k - 1].compressed_len
}

/// The blocks are those that what was written is cut into.
pub open spec fn blocks_laid(
    packs: Seq<Seq<u8>>,
    blocks: Seq<PackBlock>,
    written: Seq<u8>,
    block_bytes: nat,
    pack_bytes: u64,
) -> bool {
    forall|k: int|
        0 <= k < blocks.len() ==> #[trigger] block_laid(
            packs,
            blocks,
            written,
            block_bytes,
            pack_bytes,
            k,
        )
}

proof fn lemma_product(k: nat, size: nat)
    ensures
        (k + 1) * size == k * size + size,
        k * size >= 0,
{
    assert((k + 1) * size == k * size + size) by (nonlinear_arith);
    assert(k * size >= 0) by (nonlinear_arith);
}

/// What follows does not change blocks that are full.
proof fn lemma_cut_prefix(
    short: Seq<u8>,
    long: Seq<u8>,
    block_bytes: nat,
    pack_bytes: u64,
    k: nat,
)
    requires
        k * block_bytes <= short.len() <= long.len(),
        long.take(short.len() as int) == short,
    ensures
        forall|j: nat|
            j < k ==> #[trigger] cut(short, block_bytes, j) == cut(long, block_bytes, j),
        pack_place(short, block_bytes, pack_bytes, k) == pack_place(
            long,
            block_bytes,
            pack_bytes,
            k,
        ),
    decreases k,
{
    if k > 0 {
        let j = (k - 1) as nat;
        lemma_product(j, block_bytes);
        lemma_cut_prefix(short, long, block_bytes, pack_bytes, j);
        assert(cut(short, block_bytes, j) =~= cut(long, block_bytes, j)) by {
            assert forall|i: int| 0 <= i < block_bytes implies cut(short, block_bytes, j)[i] == cut(
                long,
                block_bytes,
                j,
            )[i] by {
                assert(long.take(short.len() as int)[j * block_bytes + i] == long[j * block_bytes
                    + i]);
            }
        }
    }
}

proof fn lemma_laid_prefix(
    packs: Seq<Seq<u8>>,
    blocks: Seq<PackBlock>,
    short: Seq<u8>,
    long: Seq<u8>,
    block_bytes: nat,
    pack_bytes: u64,
)
    requires
        blocks.len() * block_bytes <= short.len() <= long.len(),
        long.take(short.len() as int) == short,
        blocks_laid(packs, blocks, short, block_bytes, pack_bytes),
    ensures
        blocks_laid(packs, blocks, long, block_bytes, pack_bytes),
{
    assert forall|k: int| 0 <= k < blocks.len() implies #[trigger] block_laid(
        packs,
        blocks,
        long,
        block_bytes,
        pack_bytes,
        k,
    ) by {
        assert(block_laid(packs, blocks, short, block_bytes, pack_bytes, k));
        assert((k + 1) * block_bytes <= blocks.len() * block_bytes) by (nonlinear_arith)
            requires
                k + 1 <= blocks.len(),
                block_bytes >= 0,
        ;
        lemma_cut_prefix(short, long, block_bytes, pack_bytes, (k + 1) as nat);
        assert(cut(short, block_bytes, k as nat) == cut(long, block_bytes, k as nat));
    }
}

/// How many blocks bytes fill, and what is left.
proof fn lemma_filled(count: nat, size: nat, rest: nat, len: nat)
    requires
        rest < size,
        len == count * size + rest,
    ensures
        len / size == count,
        len % size == rest,
{
    vstd::arithmetic::div_mod::lemma_fundamental_div_mod_converse(
        len as int,
        size as int,
        count as int,
        rest as int,
    );
}

/// Lays documents end to end in blocks of `block_bytes` bytes, compressed into packs.
#[derive(Debug)]
pub struct PackBuilder {
    pub block_bytes: usize,
    pub pack_bytes: u64,
    pub block: Vec<u8>,
    pub blocks: Vec<PackBlock>,
    pub packs: Vec<PackFile>,
    pub active: Vec<u8>,
}

impl PackBuilder {
    /// The finished packs and the one being written.
    pub open spec fn files(&self) -> Seq<Seq<u8>> {
        pack_views(self.packs@).push(self.active@)
    }

    pub open spec fn wf(&self) -> bool {
        &&& 0 < self.block_bytes
        &&& 0 < self.pack_bytes
        &&& self.block@.len() < self.block_bytes
        &&& self.wf_blocks()
    }

    /// The blocks and packs are those of what was written.
    pub open spec fn wf_blocks(&self) -> bool {
        &&& blocks_stored(self.files(), self.blocks@, self.block_bytes as int)
        &&& forall|p: int| 0 <= p < self.packs@.len() ==> (#[trigger] self.packs@[p]).valid()
        &&& blocks_laid(
            self.files(),
            self.blocks@,
            self.written(),
            self.block_bytes as nat,
            self.pack_bytes,
        )
        &&& self.written().len() == self.blocks@.len() * self.block_bytes + self.block@.len()
        &&& pack_place(
            self.written(),
            self.block_bytes as nat,
            self.pack_bytes,
            self.blocks@.len(),
        ) == (self.packs@.len() as int, self.active@.len() as int)
    }

    /// Every byte that was appended.
    pub open spec fn written(&self) -> Seq<u8> {
        stored(self.files(), self.blocks@, self.blocks@.len()) + self.block@
    }

    /// The slice is byte `position` of what was written.
    pub open spec fn placed(&self, slice: PackSlice, position: nat) -> bool {
        if slice.first_block < self.blocks@.len() {
            crate::format::at_position(
                self.blocks@,
                slice.first_block as nat,
                slice.block_offset as nat,
                position,
            )
        } else {
            &&& slice.first_block == self.blocks@.len()
            &&& slice.block_offset < self.block@.len()
            &&& crate::format::bytes_before(self.blocks@, self.blocks@.len()) + slice.block_offset == position
        }
    }

    /// A builder with the sizes that indexes are written with.
    pub fn production() -> (builder: PackBuilder)
        ensures
            builder.wf(),
            builder.written() == Seq::<u8>::empty(),
            builder.block_bytes == PACK_BLOCK_BYTES,
            builder.pack_bytes == PACK_TARGET_BYTES,
    {
        let builder = PackBuilder {
            block_bytes: PACK_BLOCK_BYTES as usize,
            pack_bytes: PACK_TARGET_BYTES,
            block: Vec::new(),
            blocks: Vec::new(),
            packs: Vec::new(),
            active: Vec::new(),
        };
        assert(builder.written() =~= Seq::<u8>::empty());
        builder
    }

    pub fn new(block_bytes: usize, pack_bytes: u64) -> (builder: Result<PackBuilder, IndexError>)
        ensures
            match builder {
                Ok(b) => block_bytes > 0 && pack_bytes > 0 && b.wf() && b.written() == Seq::<
                    u8,
                >::empty() && b.block_bytes == block_bytes && b.pack_bytes == pack_bytes,
                Err(e) => if block_bytes == 0 {
                    e == IndexError::PackBlockSize
                } else {
                    pack_bytes == 0 && e == IndexError::PackTargetSize
                },
            },
    {
        if block_bytes == 0 {
            return Err(IndexError::PackBlockSize);
        }
        if pack_bytes == 0 {
            return Err(IndexError::PackTargetSize);
        }
        let builder = PackBuilder {
            block_bytes,
            pack_bytes,
            block: Vec::new(),
            blocks: Vec::new(),
            packs: Vec::new(),
            active: Vec::new(),
        };
        assert(builder.written() =~= Seq::<u8>::empty());
        Ok(builder)
    }

    /// Close the pack being written, if there is one.
    fn finish_pack(&mut self)
        requires
            0 < old(self).block_bytes,
            blocks_stored(old(self).files(), old(self).blocks@, old(self).block_bytes as int),
            forall|p: int|
                0 <= p < old(self).packs@.len() ==> (#[trigger] old(self).packs@[p]).valid(),
        ensures
            final(self).block_bytes == old(self).block_bytes,
            final(self).pack_bytes == old(self).pack_bytes,
            final(self).block@ == old(self).block@,
            final(self).blocks@ == old(self).blocks@,
            final(self).active@.len() == 0,
            if old(self).active@.len() == 0 {
                final(self).packs@ == old(self).packs@
            } else {
                pack_views(final(self).packs@) == pack_views(old(self).packs@).push(
                    old(self).active@,
                ) && final(self).packs@.len() == old(self).packs@.len() + 1
            },
            forall|p: int|
                0 <= p < final(self).packs@.len() ==> (#[trigger] final(self).packs@[p]).valid(),
            blocks_stored(final(self).files(), final(self).blocks@, final(self).block_bytes as int),
            stored(final(self).files(), final(self).blocks@, final(self).blocks@.len()) == stored(
                old(self).files(),
                old(self).blocks@,
                old(self).blocks@.len(),
            ),
    {
        if self.active.len() == 0 {
            return;
        }
        let mut bytes: Vec<u8> = Vec::new();
        std::mem::swap(&mut bytes, &mut self.active);
        let hash = sha256_hex(bytes.as_slice());
        self.packs.push(PackFile { bytes, hash });
        proof {
            assert(pack_views(self.packs@) =~= pack_views(old(self).packs@).push(old(self).active@));
            let before = old(self).files();
            let after = self.files();
            assert forall|p: int| 0 <= p < before.len() implies (#[trigger] before[p]).len()
                <= after[p].len() && after[p].subrange(0, before[p].len() as int) == before[p] by {
                assert(after[p] == before[p]);
                assert(after[p].subrange(0, before[p].len() as int) =~= before[p]);
            }
            lemma_stored_kept(
                before,
                old(self).blocks@,
                after,
                self.blocks@,
                self.block_bytes as int,
                self.blocks@.len(),
            );
        }
    }

    /// Compress the open block, if it holds anything, and put it at the end of a pack.
    fn flush_block(&mut self) -> (flushed: Result<(), IndexError>)
        requires
            0 < old(self).block_bytes,
            0 < old(self).pack_bytes,
            old(self).block@.len() <= old(self).block_bytes,
            old(self).wf_blocks(),
        ensures
            final(self).block_bytes == old(self).block_bytes,
            final(self).pack_bytes == old(self).pack_bytes,
            final(self).written() == old(self).written(),
            match flushed {
                Ok(_) => {
                    &&& final(self).block@.len() == 0
                    &&& old(self).block@.len() > 0 ==> block_fault(
                        old(self).written(),
                        old(self).block_bytes as nat,
                        old(self).pack_bytes,
                        old(self).blocks@.len(),
                    ) is None
                    &&& final(self).blocks@.len() == old(self).blocks@.len() + (if old(
                        self).block@.len() > 0 {
                        1int
                    } else {
                        0
                    })
                    &&& blocks_stored(
                        final(self).files(),
                        final(self).blocks@,
                        final(self).block_bytes as int,
                    )
                    &&& forall|p: int|
                        0 <= p < final(self).packs@.len() ==> (#[trigger] final(
                            self).packs@[p]).valid()
                    &&& blocks_laid(
                        final(self).files(),
                        final(self).blocks@,
                        final(self).written(),
                        final(self).block_bytes as nat,
                        final(self).pack_bytes,
                    )
                    &&& pack_place(
                        final(self).written(),
                        final(self).block_bytes as nat,
                        final(self).pack_bytes,
                        final(self).blocks@.len(),
                    ) == (final(self).packs@.len() as int, final(self).active@.len() as int)
                    &&& forall|slice: PackSlice, position: nat|
                        old(self).placed(slice, position) ==> #[trigger] final(self).placed(
                            slice,
                            position,
                        )
                },
                Err(e) => {
                    &&& old(self).block@.len() > 0
                    &&& block_fault(
                        old(self).written(),
                        old(self).block_bytes as nat,
                        old(self).pack_bytes,
                        old(self).blocks@.len(),
                    ) == Some(e)
                    &&& final(self).blocks@ == old(self).blocks@
                },
            },
    {
        if self.block.len() == 0 {
            return Ok(());
        }
        let ghost size = self.block_bytes as nat;
        let ghost all = self.written();
        let ghost count = self.blocks@.len();
        proof {
            lemma_product(count, size);
            assert(cut(all, size, count) =~= self.block@);
            assert(cut_frame(all, size, count) == zstd_frame(self.block@, PACK_LEVEL, true));
        }
        let compressed = match zstd_compress(self.block.as_slice(), PACK_LEVEL, true) {
            Some(compressed) => compressed,
            None => return Err(IndexError::PackCompress),
        };
        if compressed.len() as u64 > u32::MAX as u64 || self.block.len() as u64 > u32::MAX as u64 {
            return Err(IndexError::PackTooLarge);
        }
        let compressed_len: u32 = compressed.len() as u32;
        let grown: u64 = (self.active.len() as u64).saturating_add(compressed_len as u64);
        if self.active.len() > 0 && grown > self.pack_bytes {
            self.finish_pack();
        }
        if self.packs.len() as u64 > u32::MAX as u64 {
            return Err(IndexError::PackTooLarge);
        }
        if self.active.len() as u64 > u64::MAX - compressed_len as u64 {
            return Err(IndexError::PackTooLarge);
        }
        let ghost middle = *self;
        assert(middle.written() == all);
        let block = PackBlock {
            pack: self.packs.len() as u32,
            offset: self.active.len() as u64,
            compressed_len,
            decoded_len: self.block.len() as u32,
            hash: sha256(compressed.as_slice()),
        };
        self.active.extend_from_slice(compressed.as_slice());
        self.blocks.push(block);
        self.block = Vec::new();
        proof {
            let before = middle.files();
            let after = self.files();
            let n = middle.blocks@.len();
            assert forall|p: int| 0 <= p < before.len() implies (#[trigger] before[p]).len()
                <= after[p].len() && after[p].subrange(0, before[p].len() as int) == before[p] by {
                assert(after[p].subrange(0, before[p].len() as int) =~= before[p]);
            }
            lemma_stored_kept(
                before,
                middle.blocks@,
                after,
                self.blocks@,
                self.block_bytes as int,
                n,
            );
            assert(block_frame(after, block) =~= compressed@);
            assert(self.blocks@[n as int] == block);
            assert(block_follows(self.blocks@, n as int)) by {
                if n > 0 {
                    assert(self.blocks@[n - 1] == middle.blocks@.last());
                    assert(middle.blocks@.last() == old(self).blocks@.last());
                    assert(block_laid(
                        old(self).files(),
                        old(self).blocks@,
                        all,
                        size,
                        self.pack_bytes,
                        n - 1,
                    ));
                }
            }
            assert forall|k: int| 0 <= k < self.blocks@.len() implies block_stored(
                after,
                #[trigger] self.blocks@[k],
                self.block_bytes as int,
            ) by {
                if k == n {
                    assert(block_stored(after, block, self.block_bytes as int));
                }
            }
            assert(self.written() =~= old(self).written());
            assert(blocks_laid(after, self.blocks@, all, size, self.pack_bytes)) by {
                let started = old(self).files();
                assert forall|p: int| 0 <= p < started.len() implies (#[trigger] started[p]).len()
                    <= after[p].len() && after[p].subrange(0, started[p].len() as int)
                    == started[p] by {
                    assert(after[p].subrange(0, started[p].len() as int) =~= started[p]);
                }
                lemma_stored_kept(
                    started,
                    old(self).blocks@,
                    after,
                    self.blocks@,
                    self.block_bytes as int,
                    n,
                );
                assert forall|k: int| 0 <= k < self.blocks@.len() implies #[trigger] block_laid(
                    after,
                    self.blocks@,
                    all,
                    size,
                    self.pack_bytes,
                    k,
                ) by {
                    if n > 0 {
                        assert(block_laid(
                            started,
                            old(self).blocks@,
                            all,
                            size,
                            self.pack_bytes,
                            n - 1,
                        ));
                    }
                    if k < n {
                        assert(block_laid(
                            started,
                            old(self).blocks@,
                            all,
                            size,
                            self.pack_bytes,
                            k,
                        ));
                        assert(block_stored(started, old(self).blocks@[k], size as int));
                        assert(block_follows(old(self).blocks@, k));
                        if k > 0 && self.blocks@[k].pack != self.blocks@[k - 1].pack {
                            let p = self.blocks@[k - 1].pack as int;
                            assert(p < old(self).packs@.len());
                            assert(after[p] == started[p]);
                        }
                    }
                }
            }
            lemma_bytes_before_kept(middle.blocks@, self.blocks@, n);
            assert forall|slice: PackSlice, position: nat| old(self).placed(
                slice,
                position,
            ) implies #[trigger] self.placed(slice, position) by {
                if slice.first_block < n {
                    lemma_bytes_before_kept(middle.blocks@, self.blocks@, slice.first_block as nat);
                }
            }
        }
        Ok(())
    }

    /// Append bytes behind those written so far.
    pub fn extend(&mut self, bytes: &[u8]) -> (extended: Result<(), IndexError>)
        requires
            old(self).wf(),
        ensures
            match extended {
                Ok(_) => {
                    &&& extend_fault(
                        old(self).written(),
                        bytes@,
                        old(self).block_bytes as nat,
                        old(self).pack_bytes,
                    ) is None
                    &&& final(self).wf()
                    &&& final(self).written() == old(self).written() + bytes@
                    &&& final(self).block_bytes == old(self).block_bytes
                    &&& final(self).pack_bytes == old(self).pack_bytes
                    &&& forall|slice: PackSlice, position: nat|
                        old(self).placed(slice, position) ==> #[trigger] final(self).placed(
                            slice,
                            position,
                        )
                    &&& bytes@.len() > 0 && old(self).blocks@.len() <= u32::MAX && old(
                        self,
                    ).block@.len() <= u32::MAX ==> final(self).placed(
                        PackSlice {
                            first_block: old(self).blocks@.len() as u32,
                            block_offset: old(self).block@.len() as u32,
                        },
                        old(self).written().len(),
                    )
                },
                Err(e) => {
                    &&& extend_fault(
                        old(self).written(),
                        bytes@,
                        old(self).block_bytes as nat,
                        old(self).pack_bytes,
                    ) == Some(e)
                    &&& final(self).block_bytes == old(self).block_bytes
                    &&& final(self).pack_bytes == old(self).pack_bytes
                    &&& final(self).written() == (old(self).written() + bytes@).take(
                        (final(self).blocks@.len() + 1) * old(self).block_bytes,
                    )
                },
            },
    {
        let mut at: usize = 0;
        let ghost start = PackSlice {
            first_block: self.blocks@.len() as u32,
            block_offset: self.block@.len() as u32,
        };
        let ghost origin = self.written().len();
        let ghost small = self.blocks@.len() <= u32::MAX && self.block@.len() <= u32::MAX;
        let ghost size = self.block_bytes as nat;
        let ghost target = self.pack_bytes;
        let ghost all = self.written() + bytes@;
        let ghost first = self.blocks@.len();
        let ghost end = all.len() / size;
        proof {
            lemma_filled(first, size, self.block@.len(), self.written().len());
            assert(bytes@.take(0) =~= Seq::<u8>::empty());
            assert(self.written() =~= old(self).written() + bytes@.take(0));
            lemma_stored_len(
                self.files(),
                self.blocks@,
                self.block_bytes as int,
                self.blocks@.len(),
            );
        }
        while at < bytes.len()
            invariant
                at <= bytes.len(),
                self.wf(),
                self.block_bytes == old(self).block_bytes,
                self.pack_bytes == old(self).pack_bytes,
                self.written() == old(self).written() + bytes@.take(at as int),
                forall|slice: PackSlice, position: nat|
                    old(self).placed(slice, position) ==> #[trigger] self.placed(slice, position),
                size == old(self).block_bytes,
                size > 0,
                target == old(self).pack_bytes,
                all == old(self).written() + bytes@,
                end == all.len() / size,
                first == old(self).written().len() / size,
                first_fault(all, size, target, first, end) == first_fault(
                    all,
                    size,
                    target,
                    self.blocks@.len(),
                    end,
                ),
                at > 0 && small ==> self.placed(start, origin),
                at == 0 ==> self.blocks@ == old(self).blocks@ && self.block@ == old(self).block@,
                small ==> start.first_block == old(self).blocks@.len() && start.block_offset
                    == old(self).block@.len(),
                origin == old(self).written().len(),
                origin == crate::format::bytes_before(old(self).blocks@, old(self).blocks@.len()) + old(
                    self,
                ).block@.len(),
            decreases bytes.len() - at,
        {
            let room: usize = self.block_bytes - self.block.len();
            let take: usize = if bytes.len() - at < room {
                bytes.len() - at
            } else {
                room
            };
            let ghost before = *self;
            self.block.extend_from_slice(vstd::slice::slice_subrange(bytes, at, at + take));
            proof {
                assert(bytes@.take(at + take) =~= bytes@.take(at as int) + bytes@.subrange(
                    at as int,
                    at + take,
                ));
                assert(self.files() == before.files());
                assert(self.written() =~= before.written() + bytes@.subrange(at as int, at + take));
                assert(self.written() =~= old(self).written() + bytes@.take(at + take));
                assert forall|slice: PackSlice, position: nat| old(self).placed(
                    slice,
                    position,
                ) implies #[trigger] self.placed(slice, position) by {
                    assert(before.placed(slice, position));
                }
                if small {
                    if at > 0 {
                        assert(before.placed(start, origin));
                    }
                    assert(self.placed(start, origin));
                }
                let now = self.written();
                let n = self.blocks@.len();
                lemma_product(n, size);
                assert(now.take(before.written().len() as int) =~= before.written());
                lemma_laid_prefix(self.files(), self.blocks@, before.written(), now, size, target);
                lemma_cut_prefix(before.written(), now, size, target, n);
                assert(all.take(now.len() as int) =~= now);
                if now.len() == (n + 1) * size {
                    lemma_cut_prefix(now, all, size, target, n + 1);
                    assert(cut(now, size, n) == cut(all, size, n));
                    assert(n < end) by {
                        vstd::arithmetic::div_mod::lemma_div_is_ordered(
                            now.len() as int,
                            all.len() as int,
                            size as int,
                        );
                        lemma_filled(n + 1, size, 0, now.len());
                    }
                }
            }
            let ghost filled = *self;
            if self.block.len() == self.block_bytes {
                match self.flush_block() {
                    Ok(_) => {},
                    Err(e) => {
                        assert(self.written() == all.take(self.written().len() as int));
                        return Err(e);
                    },
                }
                assert(small ==> filled.placed(start, origin));
            }
            at = at + take;
        }
        assert(bytes@.take(at as int) =~= bytes@);
        proof {
            lemma_filled(self.blocks@.len(), size, self.block@.len(), all.len());
        }
        Ok(())
    }

    /// Append a document, and say where it starts.
    pub fn append(&mut self, bytes: &[u8]) -> (slice: Result<PackSlice, IndexError>)
        requires
            old(self).wf(),
        ensures
            final(self).block_bytes == old(self).block_bytes,
            final(self).pack_bytes == old(self).pack_bytes,
            match slice {
                Ok(slice) => {
                    &&& append_fault(
                        old(self).written(),
                        bytes@,
                        old(self).block_bytes as nat,
                        old(self).pack_bytes,
                    ) is None
                    &&& final(self).wf()
                    &&& final(self).written() == old(self).written() + bytes@
                    &&& forall|other: PackSlice, position: nat|
                        old(self).placed(other, position) ==> #[trigger] final(self).placed(
                            other,
                            position,
                        )
                    &&& if bytes@.len() == 0 {
                        slice == PackSlice { first_block: 0, block_offset: 0 }
                    } else {
                        final(self).placed(slice, old(self).written().len())
                    }
                },
                Err(e) => {
                    &&& append_fault(
                        old(self).written(),
                        bytes@,
                        old(self).block_bytes as nat,
                        old(self).pack_bytes,
                    ) == Some(e)
                    &&& final(self).written() == old(self).written() || final(self).written() == (
                    old(self).written() + bytes@).take(
                        (final(self).blocks@.len() + 1) * old(self).block_bytes,
                    )
                },
            },
    {
        if bytes.len() == 0 {
            assert(self.written() =~= old(self).written() + bytes@);
            return Ok(PackSlice { first_block: 0, block_offset: 0 });
        }
        proof {
            lemma_filled(
                self.blocks@.len(),
                self.block_bytes as nat,
                self.block@.len(),
                self.written().len(),
            );
        }
        if self.blocks.len() as u64 > u32::MAX as u64 || self.block.len() as u64 > u32::MAX as u64 {
            return Err(IndexError::PackTooLarge);
        }
        let slice = PackSlice {
            first_block: self.blocks.len() as u32,
            block_offset: self.block.len() as u32,
        };
        match self.extend(bytes) {
            Ok(_) => Ok(slice),
            Err(e) => Err(e),
        }
    }

    /// Close the last block and the last pack.
    pub fn finish(self) -> (built: Result<BuiltPacks, IndexError>)
        requires
            self.wf(),
        ensures
            match built {
                Ok(built) => {
                    let packs = pack_views(built.packs@);
                    &&& finish_fault(
                        self.written(),
                        self.block_bytes as nat,
                        self.pack_bytes,
                    ) is None
                    &&& blocks_stored(packs, built.blocks@, self.block_bytes as int)
                    &&& stored(packs, built.blocks@, built.blocks@.len()) == self.written()
                    &&& packs_finished(
                        packs,
                        built.blocks@,
                        self.written(),
                        self.block_bytes as nat,
                        self.pack_bytes,
                    )
                    &&& forall|p: int|
                        0 <= p < built.packs@.len() ==> (#[trigger] built.packs@[p]).valid()
                    &&& forall|slice: PackSlice, position: nat|
                        #[trigger] self.placed(slice, position) ==> crate::format::at_position(
                            built.blocks@,
                            slice.first_block as nat,
                            slice.block_offset as nat,
                            position,
                        )
                },
                Err(e) => finish_fault(
                    self.written(),
                    self.block_bytes as nat,
                    self.pack_bytes,
                ) == Some(e),
            },
    {
        let mut builder = self;
        proof {
            lemma_filled(
                self.blocks@.len(),
                self.block_bytes as nat,
                self.block@.len(),
                self.written().len(),
            );
        }
        match builder.flush_block() {
            Ok(_) => {},
            Err(e) => return Err(e),
        }
        let ghost flushed = builder;
        builder.finish_pack();
        proof {
            let with_active = builder.files();
            let packs = pack_views(builder.packs@);
            let blocks = builder.blocks@;
            assert(with_active == packs.push(builder.active@));
            assert forall|k: int| 0 <= k < blocks.len() implies block_stored(
                packs,
                #[trigger] blocks[k],
                self.block_bytes as int,
            ) && block_frame(packs, blocks[k]) == block_frame(
                with_active,
                blocks[k],
            ) by {
                assert(block_stored(with_active, blocks[k], self.block_bytes as int));
                assert(blocks[k].pack < packs.len()) by {
                    if blocks[k].pack == packs.len() {
                        assert(with_active[blocks[k].pack as int].len() == 0);
                    }
                }
                assert(packs[blocks[k].pack as int] == with_active[blocks[k].pack as int]);
            }
            if blocks.len() > 0 {
                let size = self.block_bytes as nat;
                let last = blocks.len() - 1;
                assert(block_laid(
                    flushed.files(),
                    blocks,
                    self.written(),
                    size,
                    self.pack_bytes,
                    last,
                ));
                assert(block_stored(flushed.files(), blocks[last], size as int));
                assert(flushed.active@.len() > 0);
                assert(packs =~= flushed.files());
            }
            lemma_stored_same(with_active, packs, blocks, blocks.len());
            assert(flushed.written() =~= stored(flushed.files(), flushed.blocks@, flushed.blocks@.len()));
            assert forall|slice: PackSlice, position: nat| #[trigger] self.placed(
                slice,
                position,
            ) implies crate::format::at_position(
                blocks,
                slice.first_block as nat,
                slice.block_offset as nat,
                position,
            ) by {
                assert(flushed.placed(slice, position));
            }
        }
        Ok(BuiltPacks { packs: builder.packs, blocks: builder.blocks })
    }
}

proof fn lemma_stored_same(
    packs: Seq<Seq<u8>>,
    others: Seq<Seq<u8>>,
    blocks: Seq<PackBlock>,
    n: nat,
)
    requires
        n <= blocks.len(),
        forall|k: int|
            0 <= k < blocks.len() ==> block_frame(packs, #[trigger] blocks[k]) == block_frame(
                others,
                blocks[k],
            ),
    ensures
        stored(packs, blocks, n) == stored(others, blocks, n),
    decreases n,
{
    if n > 0 {
        lemma_stored_same(packs, others, blocks, (n - 1) as nat);
        assert(block_frame(packs, blocks[n - 1]) == block_frame(others, blocks[n - 1]));
    }
}

proof fn lemma_bytes_before_kept(blocks: Seq<PackBlock>, more: Seq<PackBlock>, n: nat)
    requires
        n <= blocks.len() <= more.len(),
        forall|k: int| 0 <= k < blocks.len() ==> #[trigger] blocks[k] == more[k],
    ensures
        crate::format::bytes_before(blocks, n) == crate::format::bytes_before(more, n),
    decreases n,
{
    if n > 0 {
        lemma_bytes_before_kept(blocks, more, (n - 1) as nat);
        assert(blocks[n - 1] == more[n - 1]);
    }
}

/// Check a block's compressed bytes against its hash and decode them.
pub fn decode_block(block: &PackBlock, compressed: &[u8]) -> (decoded: Result<Vec<u8>, IndexError>)
    requires
        block.decoded_len <= i32::MAX,
    ensures
        match decoded {
            Ok(bytes) => {
                &&& block.hash@ == crate::digest::sha256_of(compressed@)@
                &&& zstd_content(compressed@) == Some(bytes@)
                &&& bytes@.len() == block.decoded_len
            },
            Err(e) => if block.hash@ != crate::digest::sha256_of(compressed@)@ {
                e == IndexError::PackBlockHash
            } else {
                !(zstd_content(compressed@) matches Some(bytes) && bytes.len()
                    == block.decoded_len) && (e == IndexError::PackBlockUnreadable || e
                    == IndexError::PackBlockDecoded)
            },
        },
{
    if !hash_matches(compressed, &block.hash) {
        return Err(IndexError::PackBlockHash);
    }
    match zstd_decompress(compressed, block.decoded_len) {
        None => Err(IndexError::PackBlockUnreadable),
        Some(bytes) => if bytes.len() as u64 != block.decoded_len as u64 {
            Err(IndexError::PackBlockDecoded)
        } else {
            Ok(bytes)
        },
    }
}

/// What the builder makes of its blocks passes the checks of a segment's block table.
pub proof fn built_blocks_validate(
    packs: Seq<Seq<u8>>,
    blocks: Seq<PackBlock>,
    block_bytes: int,
    k: int,
)
    requires
        blocks_stored(packs, blocks, block_bytes),
        block_bytes <= PACK_BLOCK_BYTES,
        forall|p: int| 0 <= p < packs.len() ==> (#[trigger] packs[p]).len() <= u64::MAX,
        0 <= k <= blocks.len(),
    ensures
        crate::format::blocks_error(blocks, k) is None,
    decreases blocks.len() - k,
{
    if k < blocks.len() {
        assert(block_stored(packs, blocks[k], block_bytes));
        assert(block_follows(blocks, k));
        built_blocks_validate(packs, blocks, block_bytes, k + 1);
    }
}

proof fn lemma_bytes_before_grows(blocks: Seq<PackBlock>, a: nat, b: nat)
    requires
        a <= b,
    ensures
        crate::format::bytes_before(blocks, a) <= crate::format::bytes_before(blocks, b),
    decreases b - a,
{
    if a < b {
        lemma_bytes_before_grows(blocks, a, (b - 1) as nat);
    }
}

/// Byte `j` of block `k` is byte `crate::format::bytes_before(blocks, k) + j` of the blocks laid end to end.
proof fn lemma_stored_byte(
    packs: Seq<Seq<u8>>,
    blocks: Seq<PackBlock>,
    block_bytes: int,
    n: nat,
    k: int,
    j: int,
)
    requires
        blocks_stored(packs, blocks, block_bytes),
        0 <= k < n <= blocks.len(),
        0 <= j < blocks[k].decoded_len,
    ensures
        crate::format::bytes_before(blocks, k as nat) + j < stored(packs, blocks, n).len(),
        stored(packs, blocks, n)[crate::format::bytes_before(blocks, k as nat) + j] == block_content(
            packs,
            blocks[k],
        )[j],
    decreases n,
{
    lemma_stored_len(packs, blocks, block_bytes, n);
    lemma_stored_len(packs, blocks, block_bytes, (n - 1) as nat);
    assert(block_stored(packs, blocks[k], block_bytes));
    if k < n - 1 {
        lemma_stored_byte(packs, blocks, block_bytes, (n - 1) as nat, k, j);
        lemma_bytes_before_grows(blocks, (n - 1) as nat, n);
    }
}

/// Each part starts at its place among the blocks laid end to end.
proof fn lemma_parts_positions(
    packs: Seq<Seq<u8>>,
    blocks: Seq<PackBlock>,
    block_bytes: int,
    k: int,
    offset: int,
    start: int,
    remaining: int,
    position: int,
)
    requires
        blocks_stored(packs, blocks, block_bytes),
        blocks.len() <= usize::MAX,
        0 <= k <= blocks.len(),
        0 <= start,
        0 <= remaining,
        start + remaining <= u64::MAX,
        0 <= offset,
        k < blocks.len() ==> offset < blocks[k].decoded_len,
        k == blocks.len() ==> offset == 0,
        crate::format::bytes_before(blocks, k as nat) + offset == position + start,
        position + start + remaining <= crate::format::bytes_before(blocks, blocks.len()),
    ensures
        crate::pack::span_end(blocks, k, offset, remaining) is Ok,
        ({
            let parts = crate::pack::parts_from(blocks, k, offset, start, remaining);
            forall|i: int|
                0 <= i < parts.len() ==> ({
                    let part = #[trigger] parts[i];
                    &&& part.block_id < blocks.len()
                    &&& part.offset + part.len <= blocks[part.block_id as int].decoded_len
                    &&& crate::format::bytes_before(blocks, part.block_id as nat) + part.offset == position
                        + part.start
                })
        }),
    decreases blocks.len() - k,
{
    if remaining > 0 && k < blocks.len() {
        let available = blocks[k].decoded_len - offset;
        let len = if remaining < available {
            remaining
        } else {
            available
        };
        if remaining <= available {
            assert(crate::pack::span_end(blocks, k + 1, 0, remaining - available) is Ok);
            assert(crate::pack::parts_from(blocks, k + 1, 0, start + len, 0) =~= Seq::<DocumentBlock>::empty());
        } else {
            if k + 1 < blocks.len() {
                assert(block_stored(packs, blocks[k + 1], block_bytes));
            }
            lemma_parts_positions(
                packs,
                blocks,
                block_bytes,
                k + 1,
                0,
                start + len,
                remaining - len,
                position,
            );
        }
        let rest = crate::pack::parts_from(blocks, k + 1, 0, start + len, remaining - len);
        let parts = crate::pack::parts_from(blocks, k, offset, start, remaining);
        assert forall|i: int| 0 <= i < parts.len() implies ({
            let part = #[trigger] parts[i];
            &&& part.block_id < blocks.len()
            &&& part.offset + part.len <= blocks[part.block_id as int].decoded_len
            &&& crate::format::bytes_before(blocks, part.block_id as nat) + part.offset == position + part.start
        }) by {
            if i > 0 {
                assert(parts[i] == rest[i - 1]);
            }
        }
    }
}

/// A document reads back as it was written: where the blocks are stored and decoded, the
/// document at byte `position` of what was written has the parts that its slice and size give,
/// and these hold its bytes.
pub proof fn documents_read_back(
    packs: Seq<Seq<u8>>,
    blocks: Seq<PackBlock>,
    block_bytes: int,
    decoded: Map<usize, Vec<u8>>,
    slice: PackSlice,
    size: u64,
    position: nat,
)
    requires
        blocks.len() <= usize::MAX,
        blocks_stored(packs, blocks, block_bytes),
        crate::format::at_position(blocks, slice.first_block as nat, slice.block_offset as nat, position),
        size > 0,
        position + size <= stored(packs, blocks, blocks.len()).len(),
        forall|k: usize|
            k < blocks.len() ==> #[trigger] decoded.contains_key(k) && decoded[k]@ == block_content(
                packs,
                blocks[k as int],
            ),
    ensures
        crate::pack::document_span(slice, size, blocks) is Ok,
        crate::lines::all_ready(crate::pack::document_parts(slice, size, blocks), decoded),
        crate::lines::content(crate::pack::document_parts(slice, size, blocks), decoded) == stored(
            packs,
            blocks,
            blocks.len(),
        ).subrange(position as int, position + size),
{
    let all = stored(packs, blocks, blocks.len());
    let parts = crate::pack::document_parts(slice, size, blocks);
    lemma_stored_len(packs, blocks, block_bytes, blocks.len());
    lemma_parts_positions(
        packs,
        blocks,
        block_bytes,
        slice.first_block as int,
        slice.block_offset as int,
        0,
        size as int,
        position as int,
    );
    crate::fetch::lemma_document_whole(slice, size, blocks);
    assert forall|i: int| 0 <= i < parts.len() implies crate::lines::part_ready(
        #[trigger] parts[i],
        decoded,
        parts[i].start + parts[i].len,
    ) by {
        let block = parts[i].block_id;
        assert(decoded.contains_key(block));
        assert(block_stored(packs, blocks[block as int], block_bytes));
    }
    let read = crate::lines::content(parts, decoded);
    assert forall|p: int| 0 <= p < size implies read[p] == all.subrange(
        position as int,
        position + size,
    )[p] by {
        crate::lines::lemma_part_exists(parts, p);
        let i = crate::lines::part_of(parts, p);
        let part = parts[i];
        assert(decoded.contains_key(part.block_id));
        lemma_stored_byte(
            packs,
            blocks,
            block_bytes,
            blocks.len(),
            part.block_id as int,
            part.offset + (p - part.start),
        );
    }
    assert(read =~= all.subrange(position as int, position + size));
}

/// Blocks go into one pack as long as it stays within its target size, and into the next one where it
/// would not: a pack is larger only where a single block is.
pub proof fn packs_are_filled_to_their_target(
    packs: Seq<Seq<u8>>,
    blocks: Seq<PackBlock>,
    written: Seq<u8>,
    block_bytes: nat,
    pack_bytes: u64,
    k: int,
)
    requires
        blocks_laid(packs, blocks, written, block_bytes, pack_bytes),
        0 < k < blocks.len(),
        pack_bytes < u64::MAX,
        blocks[k - 1].compressed_len > 0,
        block_frame(packs, blocks[k]).len() == blocks[k].compressed_len,
    ensures
        ({
            let end = blocks[k - 1].offset + blocks[k - 1].compressed_len;
            if end + blocks[k].compressed_len <= pack_bytes {
                blocks[k].pack == blocks[k - 1].pack && blocks[k].offset == end
            } else {
                blocks[k].pack == blocks[k - 1].pack + 1 && blocks[k].offset == 0
            }
        }),
{
    assert(block_laid(packs, blocks, written, block_bytes, pack_bytes, k - 1));
    assert(block_laid(packs, blocks, written, block_bytes, pack_bytes, k));
    assert(pack_place(written, block_bytes, pack_bytes, (k + 1) as nat) == packed_after(
        pack_place(written, block_bytes, pack_bytes, k as nat),
        blocks[k].compressed_len as int,
        pack_bytes,
    ));
}

/// All blocks but the last are full.
pub proof fn blocks_are_full(
    packs: Seq<Seq<u8>>,
    blocks: Seq<PackBlock>,
    written: Seq<u8>,
    block_bytes: nat,
    pack_bytes: u64,
    k: int,
)
    requires
        0 < block_bytes,
        packs_finished(packs, blocks, written, block_bytes, pack_bytes),
        0 <= k < blocks.len(),
    ensures
        k < blocks.len() - 1 ==> blocks[k].decoded_len == block_bytes,
        k == blocks.len() - 1 ==> 0 < blocks[k].decoded_len <= block_bytes,
        (blocks.len() - 1) * block_bytes < written.len() <= blocks.len() * block_bytes,
{
    let n = blocks.len() as int;
    let len = written.len() as int;
    let whole = len / block_bytes as int;
    assert(block_laid(packs, blocks, written, block_bytes, pack_bytes, k));
    vstd::arithmetic::div_mod::lemma_fundamental_div_mod(len, block_bytes as int);
    assert(whole * block_bytes <= len < (whole + 1) * block_bytes) by (nonlinear_arith)
        requires
            block_bytes > 0,
            len == block_bytes * whole + len % (block_bytes as int),
            0 <= len % (block_bytes as int) < block_bytes,
    ;
    if k < n - 1 {
        assert((k + 1) * block_bytes <= whole * block_bytes) by (nonlinear_arith)
            requires
                k + 1 <= whole,
        ;
    }
    assert((k + 1) * block_bytes == k * block_bytes + block_bytes) by (nonlinear_arith);
    assert((whole + 1) * block_bytes == whole * block_bytes + block_bytes) by (nonlinear_arith);
    if len % (block_bytes as int) == 0 {
        assert(n == whole);
        assert((n - 1) * block_bytes == n * block_bytes - block_bytes) by (nonlinear_arith);
        assert(whole * block_bytes == block_bytes * whole) by (nonlinear_arith);
    } else {
        assert(n == whole + 1);
        assert(whole * block_bytes == block_bytes * whole) by (nonlinear_arith);
    }
}

} // verus!
