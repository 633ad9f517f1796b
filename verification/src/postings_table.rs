//! Per-block verification table at the end of a postings file: the SHA-256 of every block of the
//! data, then a footer. Ranged reads round to block boundaries and are checked against the table,
//! since a whole-file hash cannot vouch for a range.

use crate::bits::{put_u64_le, read_hash, read_u64_le};
use crate::digest::{hash_matches, sha256, sha256_hex};
use crate::error::IndexError;
use vstd::prelude::*;

verus! {

/// `SGPOST01`
pub const POSTINGS_MAGIC: [u8; 8] = [83, 71, 80, 79, 83, 84, 48, 49];

pub const VERIFY_BLOCK_BYTES: usize = 65536;

pub const FOOTER_BYTES: usize = 24;

/// How many blocks `len` bytes fill.
pub open spec fn block_count(len: nat) -> nat {
    (len + VERIFY_BLOCK_BYTES as nat - 1) as nat / VERIFY_BLOCK_BYTES as nat
}

/// Block `k` of the data.
pub open spec fn data_block(data: Seq<u8>, k: nat) -> Seq<u8> {
    let start = VERIFY_BLOCK_BYTES * k;
    let end = VERIFY_BLOCK_BYTES * (k + 1);
    data.subrange(
        start,
        if end < data.len() {
            end
        } else {
            data.len() as int
        },
    )
}

/// Digests of the first `m` blocks, one after another.
pub open spec fn hash_bytes(data: Seq<u8>, m: nat) -> Seq<u8>
    decreases m,
{
    if m == 0 {
        Seq::empty()
    } else {
        hash_bytes(data, (m - 1) as nat) + crate::digest::sha256_of(
            data_block(data, (m - 1) as nat),
        )@
    }
}

/// What follows the data: the digests and the footer.
pub open spec fn tail_bytes(data: Seq<u8>) -> Seq<u8> {
    hash_bytes(data, block_count(data.len())) + crate::bits::le_bytes(data.len(), 8)
        + crate::bits::le_bytes(block_count(data.len()), 8) + POSTINGS_MAGIC@
}

/// Collects postings data and hashes each block as it fills.
pub struct PostingsTableWriter {
    out: Vec<u8>,
    hashes: Vec<[u8; 32]>,
}

impl View for PostingsTableWriter {
    type V = Seq<u8>;

    /// The data written so far.
    closed spec fn view(&self) -> Seq<u8> {
        self.out@
    }
}

impl PostingsTableWriter {
    /// Every full block is hashed, and nothing else.
    pub closed spec fn wf(&self) -> bool {
        &&& self.hashes@.len() == self.out@.len() / VERIFY_BLOCK_BYTES as nat
        &&& forall|k: int|
            0 <= k < self.hashes@.len() ==> #[trigger] self.hashes@[k] == crate::digest::sha256_of(
                data_block(self.out@, k as nat),
            )
    }

    pub fn new() -> (writer: PostingsTableWriter)
        ensures
            writer.wf(),
            writer@ == Seq::<u8>::empty(),
    {
        PostingsTableWriter { out: Vec::new(), hashes: Vec::new() }
    }

    /// Append data.
    pub fn write(&mut self, bytes: &[u8])
        requires
            old(self).wf(),
        ensures
            final(self).wf(),
            final(self)@ == old(self)@ + bytes@,
    {
        let ghost before = self.out@;
        self.out.extend_from_slice(bytes);
        assert(self.out@ =~= before + bytes@);
        proof {
            assert forall|k: int| 0 <= k < self.hashes@.len() implies #[trigger] self.hashes@[k]
                == crate::digest::sha256_of(data_block(self.out@, k as nat)) by {
                assert(data_block(self.out@, k as nat) =~= data_block(before, k as nat));
            }
        }
        let full: usize = self.out.len() / VERIFY_BLOCK_BYTES;
        while self.hashes.len() < full
            invariant
                full == self.out@.len() / VERIFY_BLOCK_BYTES as nat,
                self.out@.len() <= usize::MAX,
                self.hashes@.len() <= full,
                self.out@ == before + bytes@,
                forall|k: int|
                    0 <= k < self.hashes@.len() ==> #[trigger] self.hashes@[k]
                        == crate::digest::sha256_of(data_block(self.out@, k as nat)),
            decreases full - self.hashes.len(),
        {
            self.close_block();
        }
    }

    /// Hash the next full block.
    fn close_block(&mut self)
        requires
            VERIFY_BLOCK_BYTES * (old(self).hashes@.len() + 1) <= old(self).out@.len(),
            old(self).out@.len() <= usize::MAX,
        ensures
            final(self).out@ == old(self).out@,
            final(self).hashes@ == old(self).hashes@.push(
                crate::digest::sha256_of(data_block(old(self).out@, old(self).hashes@.len())),
            ),
    {
        let start: usize = VERIFY_BLOCK_BYTES * self.hashes.len();
        let block = vstd::slice::slice_subrange(
            self.out.as_slice(),
            start,
            start + VERIFY_BLOCK_BYTES,
        );
        assert(block@ =~= data_block(self.out@, self.hashes@.len()));
        let hash = sha256(block);
        self.hashes.push(hash);
    }

    /// The whole file, the length of its data, and the SHA-256 of what follows the data.
    pub fn finish(self) -> (file: (Vec<u8>, u64, String))
        requires
            self.wf(),
        ensures
            file.0@ == self@ + tail_bytes(self@),
            file.1 == self@.len(),
            file.2@ == crate::digest::sha256_hex_of(tail_bytes(self@)),
    {
        let mut writer = self;
        let ghost data = writer.out@;
        let data_len: usize = writer.out.len();
        let done: usize = writer.hashes.len() * VERIFY_BLOCK_BYTES;
        if done < data_len {
            let block = vstd::slice::slice_subrange(writer.out.as_slice(), done, data_len);
            assert(block@ =~= data_block(data, writer.hashes@.len()));
            let hash = sha256(block);
            writer.hashes.push(hash);
        }
        let mut tail: Vec<u8> = Vec::new();
        let mut k: usize = 0;
        while k < writer.hashes.len()
            invariant
                k <= writer.hashes.len(),
                writer.hashes@.len() == block_count(data.len()),
                forall|j: int|
                    0 <= j < writer.hashes@.len() ==> #[trigger] writer.hashes@[j]
                        == crate::digest::sha256_of(data_block(data, j as nat)),
                tail@ == hash_bytes(data, k as nat),
            decreases writer.hashes.len() - k,
        {
            let hash: [u8; 32] = writer.hashes[k];
            let ghost before = tail@;
            tail.extend_from_slice(vstd::array::array_as_slice(&hash));
            assert(tail@ =~= before + hash@);
            k = k + 1;
        }
        put_u64_le(&mut tail, data_len as u64);
        put_u64_le(&mut tail, writer.hashes.len() as u64);
        let ghost before = tail@;
        tail.extend_from_slice(vstd::array::array_as_slice(&POSTINGS_MAGIC));
        assert(tail@ =~= before + POSTINGS_MAGIC@);
        assert(tail@ =~= tail_bytes(data));
        let tail_hash = sha256_hex(tail.as_slice());
        let mut out: Vec<u8> = Vec::new();
        out.append(&mut writer.out);
        out.append(&mut tail);
        assert(out@ =~= data + tail_bytes(data));
        (out, data_len as u64, tail_hash)
    }
}

/// Parsed verification table.
#[derive(Debug)]
pub struct PostingsTableIndex {
    pub data_len: u64,
    pub hashes: Vec<[u8; 32]>,
}

/// What a file of `blob_len` bytes that ends in `tail` says of itself: the length of its data and
/// the digests of its blocks.
pub open spec fn postings_index(blob_len: nat, tail: Seq<u8>) -> Result<
    (nat, Seq<Seq<u8>>),
    IndexError,
> {
    let footer = tail.skip(tail.len() - FOOTER_BYTES);
    let data_len = crate::bits::le_value(footer.subrange(0, 8));
    let n = crate::bits::le_value(footer.subrange(8, 16));
    let start = tail.len() - FOOTER_BYTES - 32 * n;
    if tail.len() < FOOTER_BYTES || tail.len() > blob_len {
        Err(IndexError::PostingsTruncated)
    } else if footer.subrange(16, 24) != POSTINGS_MAGIC@ {
        Err(IndexError::PostingsMagic)
    } else if n != block_count(data_len) {
        Err(IndexError::PostingsBlockCount)
    } else if data_len + 32 * n + FOOTER_BYTES != blob_len {
        Err(IndexError::PostingsGap)
    } else if start < 0 {
        Err(IndexError::PostingsTailShort)
    } else {
        Ok((data_len, Seq::new(n, |k: int| tail.subrange(start + 32 * k, start + 32 * k + 32))))
    }
}

pub open spec fn hash_views(hashes: Seq<[u8; 32]>) -> Seq<Seq<u8>> {
    Seq::new(hashes.len(), |k: int| hashes[k]@)
}

impl PostingsTableIndex {
    /// One digest per block of the data.
    pub open spec fn wf(&self) -> bool {
        self.hashes@.len() == block_count(self.data_len as nat)
    }

    /// Parse the table out of the file's last bytes, which must hold the table and the footer.
    pub fn parse(blob_len: u64, tail: &[u8]) -> (parsed: Result<PostingsTableIndex, IndexError>)
        ensures
            match parsed {
                Ok(index) => index.wf() && postings_index(blob_len as nat, tail@) == Ok::<
                    (nat, Seq<Seq<u8>>),
                    IndexError,
                >((index.data_len as nat, hash_views(index.hashes@))),
                Err(e) => postings_index(blob_len as nat, tail@) == Err::<
                    (nat, Seq<Seq<u8>>),
                    IndexError,
                >(e),
            },
    {
        if tail.len() < FOOTER_BYTES || tail.len() as u64 > blob_len {
            return Err(IndexError::PostingsTruncated);
        }
        let footer_at: usize = tail.len() - FOOTER_BYTES;
        let ghost footer = tail@.skip(footer_at as int);
        let closing = vstd::slice::slice_subrange(tail, footer_at + 16, footer_at + 24);
        assert(closing@ =~= footer.subrange(16, 24));
        if !crate::text::bytes_eq(closing, vstd::array::array_as_slice(&POSTINGS_MAGIC)) {
            return Err(IndexError::PostingsMagic);
        }
        let data_len: u64 = read_u64_le(tail, footer_at);
        let count: u64 = read_u64_le(tail, footer_at + 8);
        proof {
            assert(tail@.subrange(footer_at as int, footer_at + 8) =~= footer.subrange(0, 8));
            assert(tail@.subrange(footer_at + 8, footer_at + 16) =~= footer.subrange(8, 16));
        }
        let expected: u64 = data_len / 65536 + if data_len % 65536 == 0 { 0 } else { 1 };
        assert(expected == block_count(data_len as nat));
        if count != expected {
            return Err(IndexError::PostingsBlockCount);
        }
        let table_len: u64 = count * 32;
        if data_len > blob_len || table_len > blob_len - data_len || blob_len - data_len
            - table_len != 24 {
            return Err(IndexError::PostingsGap);
        }
        if table_len > footer_at as u64 {
            return Err(IndexError::PostingsTailShort);
        }
        let start: usize = footer_at - table_len as usize;
        let n: usize = count as usize;
        let ghost listed = Seq::new(
            n as nat,
            |k: int| tail@.subrange(start + 32 * k, start + 32 * k + 32),
        );
        let mut hashes: Vec<[u8; 32]> = Vec::new();
        let mut k: usize = 0;
        while k < n
            invariant
                k <= n,
                start + 32 * n <= tail.len(),
                listed == Seq::new(
                    n as nat,
                    |j: int| tail@.subrange(start + 32 * j, start + 32 * j + 32),
                ),
                hashes@.len() == k,
                forall|j: int| 0 <= j < k ==> (#[trigger] hashes@[j])@ == listed[j],
            decreases n - k,
        {
            let hash = read_hash(tail, start + 32 * k);
            hashes.push(hash);
            k = k + 1;
        }
        assert(hash_views(hashes@) =~= listed);
        Ok(PostingsTableIndex { data_len, hashes })
    }

    /// Offset and length of block `index` in the data.
    pub fn block_range(&self, index: usize) -> (range: (u64, u64))
        requires
            VERIFY_BLOCK_BYTES * index <= self.data_len,
        ensures
            range.0 == VERIFY_BLOCK_BYTES * index,
            range.1 == if self.data_len - range.0 < VERIFY_BLOCK_BYTES {
                self.data_len - range.0
            } else {
                VERIFY_BLOCK_BYTES as int
            },
    {
        let offset: u64 = index as u64 * 65536;
        let left: u64 = self.data_len - offset;
        (offset, if left < 65536 { left } else { 65536 })
    }

    /// The blocks `start..end` that cover a range of the data.
    pub fn blocks_covering(&self, offset: u64, len: u64) -> (blocks: Result<
        (usize, usize),
        IndexError,
    >)
        requires
            self.wf(),
        ensures
            match blocks {
                Ok(range) => len > 0 && offset + len <= self.data_len && range.0 as nat
                    == offset as nat / VERIFY_BLOCK_BYTES as nat && range.1 == block_count(
                    (offset + len) as nat,
                ),
                Err(e) => if offset + len > u64::MAX {
                    e == IndexError::PostingsRangeOverflow
                } else {
                    (len == 0 || offset + len > self.data_len) && e
                        == IndexError::PostingsRangeBounds
                },
            },
    {
        let end: u64 = match offset.checked_add(len) {
            Some(end) => end,
            None => return Err(IndexError::PostingsRangeOverflow),
        };
        if end > self.data_len || len == 0 {
            return Err(IndexError::PostingsRangeBounds);
        }
        let total: usize = self.hashes.len();
        let first: u64 = offset / 65536;
        let past: u64 = end / 65536 + if end % 65536 == 0 { 0 } else { 1 };
        assert(first <= past <= total);
        Ok((first as usize, past as usize))
    }

    /// Check a block as it was fetched.
    pub fn verify(&self, index: usize, payload: &[u8]) -> (checked: Result<(), IndexError>)
        requires
            self.wf(),
            index < self.hashes@.len(),
        ensures
            checked is Ok <==> payload@.len() == (if self.data_len - VERIFY_BLOCK_BYTES * index
                < VERIFY_BLOCK_BYTES {
                self.data_len - VERIFY_BLOCK_BYTES * index
            } else {
                VERIFY_BLOCK_BYTES as int
            }) && crate::digest::sha256_of(payload@)@ == self.hashes@[index as int]@,
            checked matches Err(e) ==> e == (IndexError::PostingsBlockHash { block: index }),
    {
        let (_, len) = self.block_range(index);
        if payload.len() as u64 != len || !hash_matches(payload, &self.hashes[index]) {
            return Err(IndexError::PostingsBlockHash { block: index });
        }
        Ok(())
    }

    /// The digest of block `index`.
    pub fn block_hash(&self, index: usize) -> (hash: &[u8; 32])
        requires
            index < self.hashes@.len(),
        ensures
            hash@ == self.hashes@[index as int]@,
    {
        &self.hashes[index]
    }
}

proof fn lemma_hash_bytes(data: Seq<u8>, m: nat, k: int)
    requires
        0 <= k < m,
    ensures
        hash_bytes(data, m).len() == 32 * m,
        hash_bytes(data, m).subrange(32 * k, 32 * k + 32) == crate::digest::sha256_of(
            data_block(data, k as nat),
        )@,
    decreases m,
{
    broadcast use vstd::array::group_array_axioms;

    let all = hash_bytes(data, m);
    let front = hash_bytes(data, (m - 1) as nat);
    if m >= 2 {
        lemma_hash_bytes(data, (m - 1) as nat, 0);
    }
    if k < m - 1 {
        lemma_hash_bytes(data, (m - 1) as nat, k);
        assert(all.subrange(32 * k, 32 * k + 32) =~= front.subrange(32 * k, 32 * k + 32));
    } else {
        assert(all.subrange(32 * k, 32 * k + 32) =~= crate::digest::sha256_of(
            data_block(data, k as nat),
        )@);
    }
}

/// A written file parses, from any of its last bytes that hold the table, to the length of its
/// data and the digests of its blocks.
pub proof fn written_postings_parse(data: Seq<u8>, start: nat)
    requires
        data.len() + tail_bytes(data).len() <= u64::MAX,
        start <= data.len(),
    ensures
        postings_index(
            data.len() + tail_bytes(data).len(),
            (data + tail_bytes(data)).skip(start as int),
        ) == Ok::<(nat, Seq<Seq<u8>>), IndexError>(
            (
                data.len(),
                Seq::new(
                    block_count(data.len()),
                    |k: int| crate::digest::sha256_of(data_block(data, k as nat))@,
                ),
            ),
        ),
{
    broadcast use vstd::array::group_array_axioms;

    let n = block_count(data.len());
    let table = hash_bytes(data, n);
    let tail = (data + tail_bytes(data)).skip(start as int);
    if n > 0 {
        lemma_hash_bytes(data, n, 0);
    }
    crate::bits::lemma_u64_bytes(data.len() as u64);
    crate::bits::lemma_u64_bytes(n as u64);
    let footer = tail.skip(tail.len() - FOOTER_BYTES);
    assert(footer.subrange(0, 8) =~= crate::bits::le_bytes(data.len(), 8));
    assert(footer.subrange(8, 16) =~= crate::bits::le_bytes(n, 8));
    assert(footer.subrange(16, 24) =~= POSTINGS_MAGIC@);
    let at = tail.len() - FOOTER_BYTES - 32 * n;
    let listed = Seq::new(n, |k: int| tail.subrange(at + 32 * k, at + 32 * k + 32));
    let wanted = Seq::new(n, |k: int| crate::digest::sha256_of(data_block(data, k as nat))@);
    assert forall|k: int| 0 <= k < n implies listed[k] == wanted[k] by {
        lemma_hash_bytes(data, n, k);
        assert(tail.subrange(at + 32 * k, at + 32 * k + 32) =~= table.subrange(
            32 * k,
            32 * k + 32,
        ));
    }
    assert(listed =~= wanted);
}

/// Every byte of a range lies in a block that covers it, and every block that covers the range
/// holds a byte of it.
pub proof fn covering_blocks_are_exact(offset: u64, len: u64, k: nat)
    requires
        len > 0,
    ensures
        offset as nat / VERIFY_BLOCK_BYTES as nat <= k < block_count((offset + len) as nat)
            <==> exists|p: nat|
            offset <= p < offset + len && #[trigger] (p / VERIFY_BLOCK_BYTES as nat) == k,
{
    if offset as nat / VERIFY_BLOCK_BYTES as nat <= k < block_count((offset + len) as nat) {
        let p: nat = if VERIFY_BLOCK_BYTES * k < offset {
            offset as nat
        } else {
            (VERIFY_BLOCK_BYTES * k) as nat
        };
        assert(offset <= p < offset + len && p / VERIFY_BLOCK_BYTES as nat == k);
    }
}

} // verus!
