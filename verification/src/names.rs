//! Names of blobs and cache files.

use crate::bits::put_u64_be;
use crate::text::{hex, joined};
use vstd::prelude::*;

verus! {

pub open spec fn segment_blob_name(seg_id: Seq<char>, name: Seq<char>) -> Seq<char> {
    "segments/"@ + seg_id + "/"@ + name
}

/// The name of a segment's blob.
pub fn segment_blob(seg_id: &str, name: &str) -> (blob: String)
    ensures
        blob@ == segment_blob_name(seg_id@, name@),
{
    joined(joined(joined("segments/", seg_id).as_str(), "/").as_str(), name)
}

pub open spec fn pack_blob_name(hash: Seq<char>) -> Seq<char> {
    "packs/"@ + hash + ".pack"@
}

/// The name of a pack, which its content gives.
pub fn pack_blob(hash: &str) -> (blob: String)
    ensures
        blob@ == pack_blob_name(hash@),
{
    joined(joined("packs/", hash).as_str(), ".pack")
}

pub open spec fn dead_file_name(hash: Seq<char>) -> Seq<char> {
    "dead-"@ + hash + ".bin"@
}

/// The name of a dead set within its segment.
pub fn dead_name(hash: &str) -> (name: String)
    ensures
        name@ == dead_file_name(hash@),
{
    joined(joined("dead-", hash).as_str(), ".bin")
}

/// Sixteen hex digits of a number.
pub open spec fn hex16(n: u64) -> Seq<char> {
    crate::text::hex_text(crate::bits::be_bytes(n as nat, 8))
}

pub open spec fn block_file_name(seg_id: Seq<char>, hash: Seq<char>, offset: u64) -> Seq<char> {
    seg_id + "/pack-"@ + hash + "-"@ + hex16(offset)
}

/// Where a compressed block is cached, below the cache directory.
pub fn block_path(seg_id: &str, pack_hash: &str, offset: u64) -> (path: String)
    ensures
        path@ == block_file_name(seg_id@, pack_hash@, offset),
{
    let mut bytes: Vec<u8> = Vec::new();
    put_u64_be(&mut bytes, offset);
    assert(bytes@ =~= crate::bits::be_bytes(offset as nat, 8));
    let head = joined(joined(joined(seg_id, "/pack-").as_str(), pack_hash).as_str(), "-");
    joined(head.as_str(), hex(bytes.as_slice()).as_str())
}

pub open spec fn term_block_file_name(seg_id: Seq<char>, offset: u64) -> Seq<char> {
    seg_id + "/terms-block-"@ + hex16(offset)
}

/// Where a term block is cached, below the cache directory.
pub fn term_block_path(seg_id: &str, offset: u64) -> (path: String)
    ensures
        path@ == term_block_file_name(seg_id@, offset),
{
    let mut bytes: Vec<u8> = Vec::new();
    put_u64_be(&mut bytes, offset);
    assert(bytes@ =~= crate::bits::be_bytes(offset as nat, 8));
    joined(joined(seg_id, "/terms-block-").as_str(), hex(bytes.as_slice()).as_str())
}

pub open spec fn verified_file_name(path: Seq<char>) -> Seq<char> {
    path + ".verified"@
}

/// The file beside a cached one that records what was verified.
pub fn verified_path(path: &str) -> (marker: String)
    ensures
        marker@ == verified_file_name(path@),
{
    joined(path, ".verified")
}

/// Blobs of different segments, or different blobs of one, have different names; so have different packs,
/// and different dead sets of a segment.
pub proof fn blob_names_tell_blobs_apart(
    a: Seq<char>,
    x: Seq<char>,
    b: Seq<char>,
    y: Seq<char>,
)
    requires
        a.len() == b.len(),
    ensures
        segment_blob_name(a, x) == segment_blob_name(b, y) <==> a == b && x == y,
        pack_blob_name(a) == pack_blob_name(b) <==> a == b,
        dead_file_name(a) == dead_file_name(b) <==> a == b,
        segment_blob_name(a, x) != pack_blob_name(b),
{
    reveal_strlit("segments/");
    reveal_strlit("packs/");
    reveal_strlit("/");
    reveal_strlit(".pack");
    reveal_strlit("dead-");
    reveal_strlit(".bin");
    let n = a.len() as int;
    assert(segment_blob_name(a, x).subrange(9, 9 + n) =~= a);
    assert(segment_blob_name(b, y).subrange(9, 9 + n) =~= b);
    assert(segment_blob_name(a, x).skip(10 + n) =~= x);
    assert(segment_blob_name(b, y).skip(10 + n) =~= y);
    assert(pack_blob_name(a).subrange(6, 6 + n) =~= a);
    assert(pack_blob_name(b).subrange(6, 6 + n) =~= b);
    assert(dead_file_name(a).subrange(5, 5 + n) =~= a);
    assert(dead_file_name(b).subrange(5, 5 + n) =~= b);
    assert(segment_blob_name(a, x)[0] == 's');
    assert(pack_blob_name(b)[0] == 'p');
}

proof fn lemma_hex16(a: u64, b: u64)
    ensures
        hex16(a).len() == 16,
        hex16(a) == hex16(b) <==> a == b,
{
    crate::bits::lemma_u64_bytes(a);
    crate::bits::lemma_u64_bytes(b);
    crate::text::hex_digits_tell_bytes_apart(
        crate::bits::be_bytes(a as nat, 8),
        crate::bits::be_bytes(b as nat, 8),
    );
}

/// Cached blocks of different segments, packs or places have different names.
pub proof fn cache_names_tell_blocks_apart(
    a: Seq<char>,
    hash_a: Seq<char>,
    offset_a: u64,
    b: Seq<char>,
    hash_b: Seq<char>,
    offset_b: u64,
)
    requires
        a.len() == b.len(),
        hash_a.len() == hash_b.len(),
    ensures
        block_file_name(a, hash_a, offset_a) == block_file_name(b, hash_b, offset_b) <==> a == b
            && hash_a == hash_b && offset_a == offset_b,
        term_block_file_name(a, offset_a) == term_block_file_name(b, offset_b) <==> a == b
            && offset_a == offset_b,
{
    reveal_strlit("/pack-");
    reveal_strlit("-");
    reveal_strlit("/terms-block-");
    lemma_hex16(offset_a, offset_b);
    lemma_hex16(offset_b, offset_a);
    let n = a.len() as int;
    let h = hash_a.len() as int;
    let (x, y) = (block_file_name(a, hash_a, offset_a), block_file_name(b, hash_b, offset_b));
    assert(x.take(n) =~= a);
    assert(y.take(n) =~= b);
    assert(x.subrange(n + 6, n + 6 + h) =~= hash_a);
    assert(y.subrange(n + 6, n + 6 + h) =~= hash_b);
    assert(x.skip(n + 7 + h) =~= hex16(offset_a));
    assert(y.skip(n + 7 + h) =~= hex16(offset_b));
    let (x, y) = (term_block_file_name(a, offset_a), term_block_file_name(b, offset_b));
    assert(x.take(n) =~= a);
    assert(y.take(n) =~= b);
    assert(x.skip(n + 13) =~= hex16(offset_a));
    assert(y.skip(n + 13) =~= hex16(offset_b));
}

} // verus!
