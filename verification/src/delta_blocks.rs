//! Delta-bitpacked posting lists: blocks of ids stored as gaps, each block packed at the width
//! of its own largest gap behind a one-byte header. Dense lists collapse to one or two bits per
//! id. The encoded length does not follow from the count alone, so the dictionary carries it.

use crate::bits::{bits_for, pack_fixed, unpack_fixed};
use crate::error::IndexError;
use vstd::arithmetic::power2::*;
use vstd::prelude::*;

verus! {

pub const BLOCK_IDS: usize = 128;

/// The gap before `ids[i]`: the first id itself, then `id - previous - 1`.
pub open spec fn gap(ids: Seq<u32>, i: int) -> u32 {
    if i == 0 {
        ids[0]
    } else {
        (ids[i] - ids[i - 1] - 1) as u32
    }
}

pub open spec fn gaps(ids: Seq<u32>) -> Seq<u32> {
    Seq::new(ids.len(), |i: int| gap(ids, i))
}

/// The largest value, zero when there is none.
pub open spec fn largest(values: Seq<u32>) -> u32
    decreases values.len(),
{
    if values.len() == 0 {
        0
    } else {
        let rest = largest(values.drop_last());
        if values.last() > rest {
            values.last()
        } else {
            rest
        }
    }
}

pub open spec fn block_len(remaining: nat) -> nat {
    if remaining < BLOCK_IDS {
        remaining
    } else {
        BLOCK_IDS as nat
    }
}

/// One block: its width, then its gaps at that width.
pub open spec fn block_bytes(deltas: Seq<u32>) -> Seq<u8> {
    let width = crate::bits::bits_for_spec(largest(deltas));
    seq![width as u8] + crate::bits::packed(deltas, width)
}

/// The blocks of a gap sequence, one after another.
pub open spec fn blocks_bytes(deltas: Seq<u32>) -> Seq<u8>
    decreases deltas.len(),
{
    if deltas.len() == 0 {
        Seq::empty()
    } else {
        let n = block_len(deltas.len()) as int;
        block_bytes(deltas.take(n)) + blocks_bytes(deltas.skip(n))
    }
}

/// The encoded form of an ascending id list.
pub open spec fn encoded(ids: Seq<u32>) -> Seq<u8> {
    blocks_bytes(gaps(ids))
}

/// Resume an id list with more gaps; every id must stay below `doc_count`.
pub open spec fn extend_ids(ids: Seq<u32>, deltas: Seq<u32>, doc_count: u32) -> Result<
    Seq<u32>,
    IndexError,
>
    decreases deltas.len(),
{
    if deltas.len() == 0 {
        Ok(ids)
    } else {
        let next: int = if ids.len() == 0 {
            deltas[0] as int
        } else {
            ids.last() + deltas[0] + 1
        };
        if next > u32::MAX {
            Err(IndexError::DeltaOverflow)
        } else if next >= doc_count {
            Err(IndexError::IdOutOfBounds { id: next as u32 })
        } else {
            extend_ids(ids.push(next as u32), deltas.skip(1), doc_count)
        }
    }
}

/// Resume decoding: `remaining` more ids must come from exactly `bytes`.
pub open spec fn decode_from(
    ids: Seq<u32>,
    bytes: Seq<u8>,
    remaining: nat,
    doc_count: u32,
) -> Result<Seq<u32>, IndexError>
    decreases remaining,
{
    if remaining == 0 {
        if bytes.len() == 0 {
            Ok(ids)
        } else {
            Err(IndexError::TrailingBytes { extra: bytes.len() as usize })
        }
    } else if bytes.len() == 0 {
        Err(IndexError::MissingWidth)
    } else {
        let width = bytes[0];
        let n = block_len(remaining);
        let len = crate::bits::packed_len(n, width as nat);
        if width < 1 || width > 32 {
            Err(IndexError::InvalidWidth { width })
        } else if bytes.len() < 1 + len {
            Err(IndexError::TruncatedBlock)
        } else {
            let deltas = crate::bits::unpacked(
                bytes.subrange(1, 1 + len as int),
                n,
                width as nat,
            );
            match extend_ids(ids, deltas, doc_count) {
                Err(e) => Err(e),
                Ok(next) => decode_from(
                    next,
                    bytes.skip(1 + len as int),
                    (remaining - n) as nat,
                    doc_count,
                ),
            }
        }
    }
}

/// What decoding `count` ids from `bytes` yields.
pub open spec fn decoded(bytes: Seq<u8>, count: u32, doc_count: u32) -> Result<
    Seq<u32>,
    IndexError,
> {
    if count > doc_count {
        Err(IndexError::CountExceedsDocs { count, doc_count })
    } else {
        decode_from(Seq::empty(), bytes, count as nat, doc_count)
    }
}

proof fn lemma_largest(values: Seq<u32>, i: int)
    requires
        0 <= i < values.len(),
    ensures
        values[i] <= largest(values),
    decreases values.len(),
{
    if i < values.len() - 1 {
        lemma_largest(values.drop_last(), i);
        assert(values.drop_last()[i] == values[i]);
    }
}

proof fn lemma_block_fits(deltas: Seq<u32>)
    ensures
        crate::bits::fields_fit(deltas, crate::bits::bits_for_spec(largest(deltas))),
{
    let width = crate::bits::bits_for_spec(largest(deltas));
    crate::bits::lemma_bits_for(largest(deltas));
    assert forall|i: int| 0 <= i < deltas.len() implies (#[trigger] deltas[i] as nat) < pow2(
        width,
    ) by {
        lemma_largest(deltas, i);
    }
}

/// Encode strictly ascending ids onto the end of `out`.
pub fn encode_delta_blocks(ids: &[u32], out: &mut Vec<u8>)
    requires
        crate::ids::ascending(ids@),
    ensures
        final(out)@ == old(out)@ + encoded(ids@),
{
    let mut at: usize = 0;
    let ghost all = gaps(ids@);
    let ghost start = out@;
    assert(all.skip(0) =~= all);
    while at < ids.len()
        invariant
            crate::ids::ascending(ids@),
            at <= ids.len(),
            all == gaps(ids@),
            out@ + blocks_bytes(all.skip(at as int)) == start + blocks_bytes(all),
        decreases ids.len() - at,
    {
        let left: usize = ids.len() - at;
        let n: usize = if left < BLOCK_IDS { left } else { BLOCK_IDS };
        let deltas = block_gaps(ids, at, n);
        let mut max_delta: u32 = 0;
        let mut k: usize = 0;
        while k < n
            invariant
                k <= n,
                n == deltas.len(),
                max_delta == largest(deltas@.take(k as int)),
            decreases n - k,
        {
            assert(deltas@.take(k + 1).drop_last() =~= deltas@.take(k as int));
            if deltas[k] > max_delta {
                max_delta = deltas[k];
            }
            k = k + 1;
        }
        assert(deltas@.take(n as int) =~= deltas@);
        let width: usize = bits_for(max_delta);
        let ghost before = out@;
        out.push(width as u8);
        proof {
            lemma_block_fits(deltas@);
            let rest = all.skip(at as int);
            assert(rest.take(n as int) =~= deltas@);
            assert(rest.skip(n as int) =~= all.skip(at + n));
        }
        pack_fixed(deltas.as_slice(), width, out);
        proof {
            let rest = all.skip(at as int);
            assert(out@ =~= before + block_bytes(deltas@));
            assert(blocks_bytes(rest) == block_bytes(deltas@) + blocks_bytes(all.skip(at + n)));
            assert(out@ + blocks_bytes(all.skip(at + n)) =~= before + blocks_bytes(rest));
        }
        at = at + n;
    }
    assert(all.skip(at as int) =~= Seq::<u32>::empty());
    assert(out@ + Seq::<u8>::empty() =~= out@);
}

/// The gaps before `n` ids from `at`.
fn block_gaps(ids: &[u32], at: usize, n: usize) -> (deltas: Vec<u32>)
    requires
        crate::ids::ascending(ids@),
        at + n <= ids.len(),
    ensures
        deltas@ == gaps(ids@).subrange(at as int, at + n),
{
    let mut deltas: Vec<u32> = Vec::new();
    let mut k: usize = 0;
    while k < n
        invariant
            crate::ids::ascending(ids@),
            at + n <= ids.len(),
            k <= n,
            deltas@ == gaps(ids@).subrange(at as int, at + k),
        decreases n - k,
    {
        let i: usize = at + k;
        let delta: u32 = if i == 0 {
            ids[0]
        } else {
            assert(ids@[i - 1] < ids@[i as int]);
            ids[i] - ids[i - 1] - 1
        };
        deltas.push(delta);
        assert(gaps(ids@).subrange(at as int, at + k + 1) =~= gaps(ids@).subrange(
            at as int,
            at + k,
        ).push(gap(ids@, i as int)));
        k = k + 1;
    }
    deltas
}

/// Exact encoded length without the encoding.
pub fn encoded_len(ids: &[u32]) -> (len: u64)
    requires
        crate::ids::ascending(ids@),
    ensures
        len == encoded(ids@).len(),
{
    let mut total: u64 = 0;
    let mut at: usize = 0;
    let ghost all = gaps(ids@);
    assert(all.skip(0) =~= all);
    proof {
        crate::ids::lemma_ascending_len(ids@);
    }
    while at < ids.len()
        invariant
            crate::ids::ascending(ids@),
            ids.len() <= 0x1_0000_0000,
            at <= ids.len(),
            all == gaps(ids@),
            total + blocks_bytes(all.skip(at as int)).len() == blocks_bytes(all).len(),
            total <= 5 * at,
        decreases ids.len() - at,
    {
        let left: usize = ids.len() - at;
        let n: usize = if left < BLOCK_IDS { left } else { BLOCK_IDS };
        let deltas = block_gaps(ids, at, n);
        let mut max_delta: u32 = 0;
        let mut k: usize = 0;
        while k < n
            invariant
                k <= n,
                n == deltas.len(),
                max_delta == largest(deltas@.take(k as int)),
            decreases n - k,
        {
            assert(deltas@.take(k + 1).drop_last() =~= deltas@.take(k as int));
            if deltas[k] > max_delta {
                max_delta = deltas[k];
            }
            k = k + 1;
        }
        assert(deltas@.take(n as int) =~= deltas@);
        let width: usize = bits_for(max_delta);
        assert(n * width <= 32 * n) by (nonlinear_arith)
            requires
                width <= 32,
        ;
        let bytes: usize = (n * width + 7) / 8;
        proof {
            let rest = all.skip(at as int);
            assert(rest.take(n as int) =~= deltas@);
            assert(rest.skip(n as int) =~= all.skip(at + n));
            assert(blocks_bytes(rest) == block_bytes(deltas@) + blocks_bytes(all.skip(at + n)));
        }
        total = total + 1 + bytes as u64;
        at = at + n;
    }
    assert(all.skip(at as int) =~= Seq::<u32>::empty());
    total
}

/// Decode `count` ids, checking widths, bounds and length.
pub fn decode_delta_blocks(bytes: &[u8], count: u32, doc_count: u32) -> (ids: Result<
    Vec<u32>,
    IndexError,
>)
    ensures
        match ids {
            Ok(list) => decoded(bytes@, count, doc_count) == Ok::<Seq<u32>, IndexError>(list@),
            Err(e) => decoded(bytes@, count, doc_count) == Err::<Seq<u32>, IndexError>(e),
        },
{
    if count > doc_count {
        return Err(IndexError::CountExceedsDocs { count, doc_count });
    }
    let mut ids: Vec<u32> = Vec::new();
    let mut cursor: usize = 0;
    let mut remaining: u32 = count;
    assert(bytes@.skip(0) =~= bytes@);
    while remaining > 0
        invariant
            count <= doc_count,
            cursor <= bytes.len(),
            decode_from(ids@, bytes@.skip(cursor as int), remaining as nat, doc_count) == decoded(
                bytes@,
                count,
                doc_count,
            ),
        decreases remaining,
    {
        let ghost rest = bytes@.skip(cursor as int);
        if cursor >= bytes.len() {
            return Err(IndexError::MissingWidth);
        }
        let width: u8 = bytes[cursor];
        if width < 1 || width > 32 {
            return Err(IndexError::InvalidWidth { width });
        }
        let n: usize = if remaining < 128 { remaining as usize } else { BLOCK_IDS };
        assert(n * width <= 32 * n) by (nonlinear_arith)
            requires
                width <= 32,
        ;
        let len: usize = (n * (width as usize) + 7) / 8;
        if bytes.len() - cursor - 1 < len {
            return Err(IndexError::TruncatedBlock);
        }
        let end: usize = cursor + 1 + len;
        let payload = vstd::slice::slice_subrange(bytes, cursor + 1, end);
        assert(payload@ =~= rest.subrange(1, 1 + len as int));
        assert(bytes@.skip(end as int) =~= rest.skip(1 + len as int));
        let deltas = match unpack_fixed(payload, n, width as usize) {
            Some(deltas) => deltas,
            None => return Err(IndexError::TruncatedBlock),
        };
        let mut k: usize = 0;
        let ghost goal = extend_ids(ids@, deltas@, doc_count);
        assert(deltas@.skip(0) =~= deltas@);
        while k < deltas.len()
            invariant
                k <= deltas.len(),
                goal == extend_ids(ids@, deltas@.skip(k as int), doc_count),
                goal is Err ==> decoded(bytes@, count, doc_count) == goal,
            decreases deltas.len() - k,
        {
            let delta: u32 = deltas[k];
            let last: Option<u32> = if ids.len() == 0 { None } else { Some(ids[ids.len() - 1]) };
            let next: u64 = match last {
                None => delta as u64,
                Some(previous) => previous as u64 + delta as u64 + 1,
            };
            assert(deltas@.skip(k as int).skip(1) =~= deltas@.skip(k + 1));
            if next > 0xffff_ffff {
                return Err(IndexError::DeltaOverflow);
            }
            let id: u32 = next as u32;
            if id >= doc_count {
                return Err(IndexError::IdOutOfBounds { id });
            }
            ids.push(id);
            k = k + 1;
        }
        cursor = end;
        remaining = remaining - n as u32;
    }
    if cursor != bytes.len() {
        return Err(IndexError::TrailingBytes { extra: bytes.len() - cursor });
    }
    Ok(ids)
}

proof fn lemma_extend_gaps(ids: Seq<u32>, k: int, n: int, doc_count: u32)
    requires
        crate::ids::ascending(ids),
        0 <= k <= n <= ids.len(),
        ids.len() > 0 ==> ids.last() < doc_count,
    ensures
        extend_ids(ids.take(k), gaps(ids).subrange(k, n), doc_count) == Ok::<Seq<u32>, IndexError>(
            ids.take(n),
        ),
    decreases n - k,
{
    let deltas = gaps(ids).subrange(k, n);
    if k < n {
        assert(ids[k] <= ids.last());
        if k > 0 {
            assert(ids[k - 1] < ids[k]);
            assert(ids.take(k).last() == ids[k - 1]);
        }
        assert(deltas[0] == gap(ids, k));
        assert(ids.take(k).push(ids[k]) =~= ids.take(k + 1));
        assert(deltas.skip(1) =~= gaps(ids).subrange(k + 1, n));
        lemma_extend_gaps(ids, k + 1, n, doc_count);
    } else {
        assert(deltas =~= Seq::<u32>::empty());
    }
}

proof fn lemma_round_trip_from(ids: Seq<u32>, k: nat, doc_count: u32)
    requires
        crate::ids::ascending(ids),
        k <= ids.len(),
        ids.len() > 0 ==> ids.last() < doc_count,
    ensures
        decode_from(
            ids.take(k as int),
            blocks_bytes(gaps(ids).skip(k as int)),
            (ids.len() - k) as nat,
            doc_count,
        ) == Ok::<Seq<u32>, IndexError>(ids),
    decreases ids.len() - k,
{
    let deltas = gaps(ids).skip(k as int);
    if k == ids.len() {
        assert(ids.take(k as int) =~= ids);
    } else {
        let n = block_len(deltas.len());
        let block = deltas.take(n as int);
        let width = crate::bits::bits_for_spec(largest(block));
        let bytes = blocks_bytes(deltas);
        let len = crate::bits::packed_len(n, width) as int;
        crate::bits::lemma_bits_for(largest(block));
        lemma_block_fits(block);
        crate::bits::lemma_unpack_packed(block, width);
        assert(bytes[0] == width as u8);
        assert(bytes.subrange(1, 1 + len) =~= crate::bits::packed(block, width));
        assert(bytes.skip(1 + len) =~= blocks_bytes(deltas.skip(n as int)));
        assert(block =~= gaps(ids).subrange(k as int, (k + n) as int));
        assert(deltas.skip(n as int) =~= gaps(ids).skip((k + n) as int));
        lemma_extend_gaps(ids, k as int, (k + n) as int, doc_count);
        lemma_round_trip_from(ids, k + n, doc_count);
    }
}

/// Decoding an encoded list gives the list back, for every ascending list within the id space.
pub proof fn delta_blocks_round_trip(ids: Seq<u32>, doc_count: u32)
    requires
        crate::ids::ascending(ids),
        ids.len() > 0 ==> ids.last() < doc_count,
    ensures
        ids.len() <= doc_count,
        decoded(encoded(ids), ids.len() as u32, doc_count) == Ok::<Seq<u32>, IndexError>(ids),
{
    if ids.len() > 0 {
        crate::ids::lemma_ascending_floor(ids, ids.len() - 1);
    }
    assert(ids.take(0) =~= Seq::<u32>::empty());
    assert(gaps(ids).skip(0) =~= gaps(ids));
    lemma_round_trip_from(ids, 0, doc_count);
}

spec fn within(ids: Seq<u32>, doc_count: u32) -> bool {
    crate::ids::ascending(ids) && forall|i: int| 0 <= i < ids.len() ==> ids[i] < doc_count
}

proof fn lemma_extend_sound(ids: Seq<u32>, deltas: Seq<u32>, doc_count: u32)
    requires
        within(ids, doc_count),
    ensures
        extend_ids(ids, deltas, doc_count) matches Ok(out) ==> within(out, doc_count) && out.len()
            == ids.len() + deltas.len(),
    decreases deltas.len(),
{
    if deltas.len() > 0 {
        let next: int = if ids.len() == 0 {
            deltas[0] as int
        } else {
            ids.last() + deltas[0] + 1
        };
        if next < doc_count {
            let grown = ids.push(next as u32);
            assert(within(grown, doc_count)) by {
                assert forall|i: int, j: int| 0 <= i < j < grown.len() implies grown[i]
                    < grown[j] by {
                    if j == ids.len() && i < ids.len() - 1 {
                        assert(ids[i] < ids[ids.len() - 1]);
                    }
                }
            }
            lemma_extend_sound(grown, deltas.skip(1), doc_count);
        }
    }
}

proof fn lemma_decode_sound(ids: Seq<u32>, bytes: Seq<u8>, remaining: nat, doc_count: u32)
    requires
        within(ids, doc_count),
    ensures
        decode_from(ids, bytes, remaining, doc_count) matches Ok(out) ==> within(out, doc_count)
            && out.len() == ids.len() + remaining,
    decreases remaining,
{
    if remaining > 0 && bytes.len() > 0 {
        let width = bytes[0];
        let n = block_len(remaining);
        let len = crate::bits::packed_len(n, width as nat);
        if 1 <= width <= 32 && bytes.len() >= 1 + len {
            let deltas = crate::bits::unpacked(bytes.subrange(1, 1 + len as int), n, width as nat);
            lemma_extend_sound(ids, deltas, doc_count);
            if let Ok(next) = extend_ids(ids, deltas, doc_count) {
                lemma_decode_sound(
                    next,
                    bytes.skip(1 + len as int),
                    (remaining - n) as nat,
                    doc_count,
                );
            }
        }
    }
}

/// Whatever the bytes, a decoded list holds `count` strictly ascending ids below `doc_count`.
pub proof fn delta_blocks_decode_ascending(bytes: Seq<u8>, count: u32, doc_count: u32)
    ensures
        decoded(bytes, count, doc_count) matches Ok(ids) ==> ids.len() == count && crate::ids::ascending(ids)
            && forall|i: int| 0 <= i < ids.len() ==> ids[i] < doc_count,
{
    lemma_decode_sound(Seq::empty(), bytes, count as nat, doc_count);
}

} // verus!
