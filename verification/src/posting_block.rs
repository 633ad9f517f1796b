//! Fixed-width posting blocks. A block stores the ids of the documents that hold a gram, or the
//! ids of those that do not when these are fewer, or nothing at all when every document holds
//! it. Which of the three follows from the count and the document count, and so does the byte
//! length, before anything is fetched.

use crate::bits::{bits_for, pack_fixed, unpack_fixed};
use crate::error::IndexError;
use vstd::arithmetic::power2::*;
use vstd::prelude::*;

verus! {

/// Bits of one stored id: just enough for the largest id in `0..doc_count`.
pub open spec fn id_bits(doc_count: u32) -> nat {
    crate::bits::bits_for_spec(
        if doc_count == 0 {
            0
        } else {
            (doc_count - 1) as u32
        },
    )
}

/// The gram is in more than half of the documents.
pub open spec fn is_dense(count: nat, doc_count: u32) -> bool {
    2 * count > doc_count
}

/// How many ids a block stores.
pub open spec fn stored_count(count: u32, doc_count: u32) -> nat {
    if count == doc_count {
        0
    } else if is_dense(count as nat, doc_count) {
        if count > doc_count {
            0
        } else {
            (doc_count - count) as nat
        }
    } else {
        count as nat
    }
}

/// Byte length of a block.
pub open spec fn block_len(count: u32, doc_count: u32) -> nat {
    crate::bits::packed_len(stored_count(count, doc_count), id_bits(doc_count))
}

/// The numbers below `n` that `ids` does not hold, ascending.
pub open spec fn complement(ids: Seq<u32>, n: nat) -> Seq<u32>
    decreases n,
{
    if n == 0 {
        Seq::empty()
    } else {
        let below = complement(ids, (n - 1) as nat);
        if ids.contains((n - 1) as u32) {
            below
        } else {
            below.push((n - 1) as u32)
        }
    }
}

/// Strictly ascending ids below `n`.
pub open spec fn ids_within(ids: Seq<u32>, n: nat) -> bool {
    &&& crate::ids::ascending(ids)
    &&& forall|i: int| 0 <= i < ids.len() ==> (#[trigger] ids[i]) < n
}

/// The block of an id list.
pub open spec fn posting_block(ids: Seq<u32>, doc_count: u32) -> Seq<u8> {
    if ids.len() == doc_count {
        Seq::empty()
    } else if is_dense(ids.len(), doc_count) {
        crate::bits::packed(complement(ids, doc_count as nat), id_bits(doc_count))
    } else {
        crate::bits::packed(ids, id_bits(doc_count))
    }
}

/// What a block decodes to.
pub open spec fn posting_ids(bytes: Seq<u8>, count: u32, doc_count: u32) -> Result<
    Seq<u32>,
    IndexError,
> {
    let stored = crate::bits::unpacked(bytes, stored_count(count, doc_count), id_bits(doc_count));
    if count > doc_count {
        Err(IndexError::CountExceedsDocs { count, doc_count })
    } else if bytes.len() != block_len(count, doc_count) {
        Err(
            IndexError::BlockLength {
                len: bytes.len() as usize,
                expected: block_len(count, doc_count) as u64,
            },
        )
    } else if !crate::ids::ascending(stored) {
        Err(IndexError::NotAscending)
    } else if stored.len() > 0 && stored.last() >= doc_count {
        Err(IndexError::IdOutOfBounds { id: stored.last() })
    } else if count == doc_count || is_dense(count as nat, doc_count) {
        Ok(complement(stored, doc_count as nat))
    } else {
        Ok(stored)
    }
}

/// How many bits an id takes.
pub fn posting_id_bits(doc_count: u32) -> (bits: u32)
    ensures
        bits == id_bits(doc_count),
        1 <= bits <= 32,
{
    let top: u32 = if doc_count == 0 { 0 } else { doc_count - 1 };
    bits_for(top) as u32
}

/// How many ids a block stores: those present, those absent where these are fewer, or none where
/// all are present.
pub fn stored_id_count(count: u32, doc_count: u32) -> (stored: u64)
    ensures
        stored == stored_count(count, doc_count),
{
    if count == doc_count {
        0
    } else if count as u64 * 2 > doc_count as u64 {
        if count > doc_count { 0 } else { (doc_count - count) as u64 }
    } else {
        count as u64
    }
}

/// On-disk byte length of a block: the stored ids, rounded up to whole bytes.
pub fn posting_block_len(count: u32, doc_count: u32) -> (len: u64)
    ensures
        len == block_len(count, doc_count),
{
    let stored: u64 = stored_id_count(count, doc_count);
    let width: u32 = posting_id_bits(doc_count);
    assert(stored * width <= 0xffff_ffff * 32) by (nonlinear_arith)
        requires
            stored <= 0xffff_ffff,
            width <= 32,
    ;
    (stored * (width as u64) + 7) / 8
}

/// Pack ids at `width` bits onto the end of `buf`.
pub fn pack_ids(buf: &mut Vec<u8>, ids: &[u32], width: u32)
    requires
        1 <= width <= 32,
        crate::bits::fields_fit(ids@, width as nat),
    ensures
        final(buf)@ == old(buf)@ + crate::bits::packed(ids@, width as nat),
{
    pack_fixed(ids, width as usize, buf);
}

/// Unpack `n` ids of `width` bits.
pub fn unpack_ids(bytes: &[u8], n: u64, width: u32) -> (ids: Vec<u32>)
    requires
        1 <= width <= 32,
        n * width <= 8 * bytes.len(),
        n <= usize::MAX,
    ensures
        ids@ == crate::bits::unpacked(bytes@, n as nat, width as nat),
{
    match unpack_fixed(bytes, n as usize, width as usize) {
        Some(ids) => ids,
        None => Vec::new(),
    }
}

proof fn lemma_ids_fit(ids: Seq<u32>, doc_count: u32)
    requires
        ids_within(ids, doc_count as nat),
    ensures
        crate::bits::fields_fit(ids, id_bits(doc_count)),
{
    if doc_count > 0 {
        let top = (doc_count - 1) as u32;
        crate::bits::lemma_bits_for(top);
        assert forall|i: int| 0 <= i < ids.len() implies (#[trigger] ids[i] as nat) < pow2(
            id_bits(doc_count),
        ) by {
            assert(ids[i] <= top);
        }
    } else {
        assert(ids.len() == 0) by {
            if ids.len() > 0 {
                assert(ids[0] < 0);
            }
        }
    }
}

proof fn lemma_complement_within(ids: Seq<u32>, n: nat)
    requires
        n <= 0xffff_ffff,
    ensures
        ids_within(complement(ids, n), n),
        forall|x: u32| complement(ids, n).contains(x) <==> x < n && !ids.contains(x),
    decreases n,
{
    if n > 0 {
        let m = (n - 1) as nat;
        lemma_complement_within(ids, m);
        let below = complement(ids, m);
        let out = complement(ids, n);
        assert forall|x: u32| out.contains(x) <==> x < n && !ids.contains(x) by {
            if out.contains(x) {
                let i = choose|i: int| 0 <= i < out.len() && out[i] == x;
                if i < below.len() {
                    assert(below[i] == x);
                    assert(below.contains(x));
                }
            }
            if x < n && !ids.contains(x) {
                if x < m {
                    assert(below.contains(x));
                    let i = choose|i: int| 0 <= i < below.len() && below[i] == x;
                    assert(out[i] == x);
                } else {
                    assert(out[out.len() - 1] == x);
                }
            }
        }
    }
}

/// Only values below `n` matter to a complement below `n`.
proof fn lemma_complement_prefix(a: Seq<u32>, b: Seq<u32>, n: nat)
    requires
        n <= 0xffff_ffff,
        forall|x: u32| x < n ==> (a.contains(x) <==> b.contains(x)),
    ensures
        complement(a, n) == complement(b, n),
    decreases n,
{
    if n > 0 {
        lemma_complement_prefix(a, b, (n - 1) as nat);
        assert(a.contains((n - 1) as u32) <==> b.contains((n - 1) as u32));
    }
}

proof fn lemma_contains_drop_last(ids: Seq<u32>, x: u32)
    requires
        ids.len() > 0,
        x != ids.last(),
    ensures
        ids.contains(x) <==> ids.drop_last().contains(x),
{
    if ids.contains(x) {
        let i = choose|i: int| 0 <= i < ids.len() && ids[i] == x;
        assert(ids.drop_last()[i] == x);
    }
    if ids.drop_last().contains(x) {
        let i = choose|i: int| 0 <= i < ids.drop_last().len() && ids.drop_last()[i] == x;
        assert(ids[i] == x);
    }
}

proof fn lemma_complement_twice(ids: Seq<u32>, n: nat)
    requires
        n <= 0xffff_ffff,
        ids_within(ids, n),
    ensures
        complement(ids, n).len() + ids.len() == n,
        complement(complement(ids, n), n) == ids,
    decreases n,
{
    if n == 0 {
        if ids.len() > 0 {
            assert(ids[0] < 0);
        }
    } else {
        let m = (n - 1) as nat;
        let x = m as u32;
        if ids.len() > 0 && ids.last() == x {
            let front = ids.drop_last();
            assert(ids[ids.len() - 1] == x);
            assert(ids.contains(x));
            assert(ids_within(front, m)) by {
                assert forall|i: int| 0 <= i < front.len() implies (#[trigger] front[i]) < m by {
                    assert(ids[i] < ids[ids.len() - 1]);
                }
            }
            assert forall|y: u32| y < m implies (ids.contains(y) <==> front.contains(y)) by {
                lemma_contains_drop_last(ids, y);
            }
            lemma_complement_prefix(ids, front, m);
            lemma_complement_twice(front, m);
            lemma_complement_within(ids, n);
            assert(!complement(ids, n).contains(x));
            assert(complement(ids, n) == complement(front, m));
            assert(front.push(x) =~= ids);
        } else {
            assert(ids_within(ids, m)) by {
                assert forall|i: int| 0 <= i < ids.len() implies (#[trigger] ids[i]) < m by {
                    if i < ids.len() - 1 {
                        assert(ids[i] < ids[ids.len() - 1]);
                    }
                    assert(ids[ids.len() - 1] < n);
                }
            }
            assert(!ids.contains(x)) by {
                if ids.contains(x) {
                    let i = choose|i: int| 0 <= i < ids.len() && ids[i] == x;
                    assert(ids[i] < m);
                }
            }
            lemma_complement_twice(ids, m);
            let below = complement(ids, m);
            let out = below.push(x);
            assert(out[out.len() - 1] == x);
            assert forall|y: u32| y < m implies (out.contains(y) <==> below.contains(y)) by {
                lemma_contains_drop_last(out, y);
                assert(out.drop_last() =~= below);
            }
            lemma_complement_prefix(out, below, m);
        }
    }
}

/// The ids below `doc_count` that `ids` does not hold.
fn absent_ids(ids: &[u32], doc_count: u32) -> (absent: Vec<u32>)
    requires
        ids_within(ids@, doc_count as nat),
    ensures
        absent@ == complement(ids@, doc_count as nat),
{
    let mut absent: Vec<u32> = Vec::new();
    let mut at: usize = 0;
    let mut id: u32 = 0;
    while id < doc_count
        invariant
            ids_within(ids@, doc_count as nat),
            id <= doc_count,
            at <= ids.len(),
            forall|i: int| 0 <= i < at ==> ids@[i] < id,
            forall|i: int| at <= i < ids.len() ==> ids@[i] >= id,
            absent@ == complement(ids@, id as nat),
        decreases doc_count - id,
    {
        if at < ids.len() && ids[at] == id {
            assert(ids@.contains(id));
            assert forall|i: int| at + 1 <= i < ids.len() implies ids@[i] >= id + 1 by {
                assert(ids@[at as int] < ids@[i]);
            }
            at = at + 1;
        } else {
            assert(!ids@.contains(id)) by {
                if ids@.contains(id) {
                    let i = choose|i: int| 0 <= i < ids@.len() && ids@[i] == id;
                    if i > at {
                        assert(ids@[at as int] < ids@[i]);
                    }
                }
            }
            assert forall|i: int| at <= i < ids.len() implies ids@[i] >= id + 1 by {
                if ids@[i] == id {
                    assert(ids@.contains(id));
                }
            }
            absent.push(id);
        }
        id = id + 1;
    }
    absent
}

/// Append the block of `ids` to `buf`.
pub fn encode_posting_block(buf: &mut Vec<u8>, ids: &[u32], doc_count: u32)
    requires
        ids_within(ids@, doc_count as nat),
    ensures
        final(buf)@ == old(buf)@ + posting_block(ids@, doc_count),
{
    proof {
        if ids@.len() > 0 {
            crate::ids::lemma_ascending_floor(ids@, ids@.len() - 1);
        }
        lemma_ids_fit(ids@, doc_count);
    }
    let count: u32 = ids.len() as u32;
    if count == doc_count {
        assert(buf@ + Seq::<u8>::empty() =~= buf@);
        return ;
    }
    let width: u32 = posting_id_bits(doc_count);
    if count as u64 * 2 > doc_count as u64 {
        let absent = absent_ids(ids, doc_count);
        proof {
            lemma_complement_within(ids@, doc_count as nat);
            lemma_ids_fit(absent@, doc_count);
        }
        pack_ids(buf, absent.as_slice(), width);
    } else {
        pack_ids(buf, ids, width);
    }
}

/// Inverse of `encode_posting_block`, checking length, order and bounds.
pub fn decode_posting_block(bytes: &[u8], count: u32, doc_count: u32) -> (ids: Result<
    Vec<u32>,
    IndexError,
>)
    ensures
        match ids {
            Ok(list) => posting_ids(bytes@, count, doc_count) == Ok::<Seq<u32>, IndexError>(list@),
            Err(e) => posting_ids(bytes@, count, doc_count) == Err::<Seq<u32>, IndexError>(e),
        },
{
    if count > doc_count {
        return Err(IndexError::CountExceedsDocs { count, doc_count });
    }
    let expected: u64 = posting_block_len(count, doc_count);
    if bytes.len() as u64 != expected {
        return Err(IndexError::BlockLength { len: bytes.len(), expected });
    }
    let n: u64 = stored_id_count(count, doc_count);
    let width: u32 = posting_id_bits(doc_count);
    let stored = unpack_ids(bytes, n, width);
    let mut i: usize = 1;
    while i < stored.len()
        invariant
            1 <= i,
            stored.len() == 0 || i <= stored.len(),
            forall|a: int, b: int| 0 <= a < b < i && b < stored.len() ==> stored@[a] < stored@[b],
            posting_ids(bytes@, count, doc_count) == Err::<Seq<u32>, IndexError>(
                IndexError::NotAscending,
            ) || crate::ids::ascending(stored@),
        decreases stored.len() - i,
    {
        if stored[i - 1] >= stored[i] {
            assert(!(stored@[i - 1] < stored@[i as int]));
            return Err(IndexError::NotAscending);
        }
        assert forall|a: int, b: int| 0 <= a < b < i + 1 && b < stored.len() implies stored@[a]
            < stored@[b] by {
            if b == i && a < i - 1 {
                assert(stored@[a] < stored@[i - 1]);
            }
        }
        i = i + 1;
    }
    assert(crate::ids::ascending(stored@));
    if stored.len() > 0 {
        let last: u32 = stored[stored.len() - 1];
        if last >= doc_count {
            return Err(IndexError::IdOutOfBounds { id: last });
        }
    }
    assert(ids_within(stored@, doc_count as nat)) by {
        assert forall|k: int| 0 <= k < stored@.len() implies (#[trigger] stored@[k])
            < doc_count by {
            if k < stored@.len() - 1 {
                assert(stored@[k] < stored@[stored@.len() - 1]);
            }
        }
    }
    if count == doc_count || count as u64 * 2 > doc_count as u64 {
        Ok(absent_ids(stored.as_slice(), doc_count))
    } else {
        Ok(stored)
    }
}

/// A block is exactly as long as its count and document count say.
pub proof fn posting_block_length(ids: Seq<u32>, doc_count: u32)
    requires
        ids_within(ids, doc_count as nat),
    ensures
        ids.len() <= doc_count,
        posting_block(ids, doc_count).len() == block_len(ids.len() as u32, doc_count),
{
    if ids.len() > 0 {
        crate::ids::lemma_ascending_floor(ids, ids.len() - 1);
    }
    lemma_complement_twice(ids, doc_count as nat);
    assert(0 * id_bits(doc_count) == 0) by (nonlinear_arith);
}

/// Decoding a block gives its id list back, at every density.
pub proof fn posting_block_round_trip(ids: Seq<u32>, doc_count: u32)
    requires
        ids_within(ids, doc_count as nat),
    ensures
        ids.len() <= doc_count,
        posting_ids(posting_block(ids, doc_count), ids.len() as u32, doc_count) == Ok::<
            Seq<u32>,
            IndexError,
        >(ids),
{
    posting_block_length(ids, doc_count);
    lemma_complement_twice(ids, doc_count as nat);
    lemma_complement_within(ids, doc_count as nat);
    crate::bits::lemma_bits_for(
        if doc_count == 0 {
            0
        } else {
            (doc_count - 1) as u32
        },
    );
    let kept = if ids.len() == doc_count {
        Seq::<u32>::empty()
    } else if is_dense(ids.len(), doc_count) {
        complement(ids, doc_count as nat)
    } else {
        ids
    };
    assert(ids_within(kept, doc_count as nat));
    lemma_ids_fit(kept, doc_count);
    crate::bits::lemma_unpack_packed(kept, id_bits(doc_count));
    let bytes = posting_block(ids, doc_count);
    let stored = crate::bits::unpacked(
        bytes,
        stored_count(ids.len() as u32, doc_count),
        id_bits(doc_count),
    );
    assert(stored =~= kept);
    if ids.len() == doc_count {
        assert(complement(ids, doc_count as nat) =~= Seq::<u32>::empty());
    }
}

/// Whatever the bytes, a decoded block holds `count` strictly ascending ids below `doc_count`.
pub proof fn posting_block_decode_ascending(bytes: Seq<u8>, count: u32, doc_count: u32)
    ensures
        posting_ids(bytes, count, doc_count) matches Ok(ids) ==> ids.len() == count && ids_within(
            ids,
            doc_count as nat,
        ),
{
    if let Ok(ids) = posting_ids(bytes, count, doc_count) {
        let stored = crate::bits::unpacked(
            bytes,
            stored_count(count, doc_count),
            id_bits(doc_count),
        );
        assert(ids_within(stored, doc_count as nat)) by {
            assert forall|k: int| 0 <= k < stored.len() implies (#[trigger] stored[k])
                < doc_count by {
                if k < stored.len() - 1 {
                    assert(stored[k] < stored[stored.len() - 1]);
                }
            }
        }
        lemma_complement_twice(stored, doc_count as nat);
        lemma_complement_within(stored, doc_count as nat);
    }
}

} // verus!
