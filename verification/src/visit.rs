//! Loading pack blocks: who loads which block, what to fetch for runs of blocks, and what to make
//! of the bytes that a cache or a fetch brought.

use crate::digest::hash_matches;
use crate::error::IndexError;
use crate::format::PackBlock;
use crate::pack::{PackRun, RunView};
use crate::pack_build::{decode_block, PackMeta};
use std::collections::BTreeMap;
use vstd::prelude::*;

verus! {

/// What a loader does about the blocks it needs.
#[derive(Debug)]
pub enum Claim {
    /// All of them are decoded.
    Ready,
    /// Another loader is at work on one of them.
    Wait,
    /// Load these: no other loader is at work on any of them.
    Load(Vec<usize>),
}

/// Which blocks are decoded (`true`) or being loaded (`false`).
#[derive(Debug)]
pub struct BlockState {
    pub entries: BTreeMap<usize, bool>,
}

pub open spec fn is_ready(entries: Map<usize, bool>, id: usize) -> bool {
    entries.contains_key(id) && entries[id]
}

pub open spec fn is_loading(entries: Map<usize, bool>, id: usize) -> bool {
    entries.contains_key(id) && !entries[id]
}

impl BlockState {
    pub fn new() -> (state: BlockState)
        ensures
            state.entries@ == Map::<usize, bool>::empty(),
    {
        BlockState { entries: BTreeMap::new() }
    }

    /// Every block is decoded.
    pub fn complete(&self, ids: &[usize]) -> (done: bool)
        ensures
            done <==> forall|i: int|
                0 <= i < ids@.len() ==> is_ready(self.entries@, #[trigger] ids@[i]),
    {
        broadcast use vstd::std_specs::btree::group_btree_axioms;

        let mut i: usize = 0;
        while i < ids.len()
            invariant
                i <= ids.len(),
                forall|j: int| 0 <= j < i ==> is_ready(self.entries@, #[trigger] ids@[j]),
            decreases ids.len() - i,
        {
            match self.entries.get(&ids[i]) {
                Some(ready) => if !*ready {
                    assert(!is_ready(self.entries@, ids@[i as int]));
                    return false;
                },
                None => {
                    assert(!is_ready(self.entries@, ids@[i as int]));
                    return false;
                },
            }
            i = i + 1;
        }
        true
    }

    /// Claim the blocks that nobody has loaded or is loading, unless another loader is at work on
    /// one of the blocks.
    pub fn claim(&mut self, ids: &[usize]) -> (claim: Claim)
        ensures
            match claim {
                Claim::Ready => {
                    &&& forall|i: int|
                        0 <= i < ids@.len() ==> is_ready(old(self).entries@, #[trigger] ids@[i])
                    &&& final(self).entries@ == old(self).entries@
                },
                Claim::Wait => {
                    &&& exists|i: int|
                        0 <= i < ids@.len() && is_loading(old(self).entries@, #[trigger] ids@[i])
                    &&& final(self).entries@ == old(self).entries@
                },
                Claim::Load(claimed) => {
                    &&& exists|i: int|
                        0 <= i < ids@.len() && !is_ready(old(self).entries@, #[trigger] ids@[i])
                    &&& forall|i: int|
                        0 <= i < ids@.len() ==> !is_loading(old(self).entries@, #[trigger] ids@[i])
                    &&& forall|i: int|
                        0 <= i < claimed@.len() ==> ids@.contains(#[trigger] claimed@[i])
                            && !old(self).entries@.contains_key(claimed@[i])
                    &&& forall|i: int|
                        0 <= i < ids@.len() && !old(self).entries@.contains_key(
                            #[trigger] ids@[i],
                        ) ==> claimed@.contains(ids@[i])
                    &&& final(self).entries@ == old(self).entries@.union_prefer_right(
                        Map::new(|id: usize| claimed@.contains(id), |id: usize| false),
                    )
                },
            },
    {
        broadcast use vstd::std_specs::btree::group_btree_axioms;

        if self.complete(ids) {
            return Claim::Ready;
        }
        let mut i: usize = 0;
        while i < ids.len()
            invariant
                i <= ids.len(),
                self.entries@ == old(self).entries@,
                forall|j: int| 0 <= j < i ==> !is_loading(self.entries@, #[trigger] ids@[j]),
            decreases ids.len() - i,
        {
            match self.entries.get(&ids[i]) {
                Some(ready) => if !*ready {
                    assert(is_loading(self.entries@, ids@[i as int]));
                    return Claim::Wait;
                },
                None => {},
            }
            i = i + 1;
        }
        let mut claimed: Vec<usize> = Vec::new();
        let mut k: usize = 0;
        assert(self.entries@ =~= old(self).entries@.union_prefer_right(
            Map::new(|id: usize| claimed@.contains(id), |id: usize| false),
        ));
        while k < ids.len()
            invariant
                k <= ids.len(),
                forall|j: int|
                    0 <= j < claimed@.len() ==> ids@.contains(#[trigger] claimed@[j]) && !old(
                        self,
                    ).entries@.contains_key(claimed@[j]),
                forall|j: int|
                    0 <= j < k && !old(self).entries@.contains_key(#[trigger] ids@[j])
                        ==> claimed@.contains(ids@[j]),
                self.entries@ == old(self).entries@.union_prefer_right(
                    Map::new(|id: usize| claimed@.contains(id), |id: usize| false),
                ),
            decreases ids.len() - k,
        {
            let id: usize = ids[k];
            let ghost before = claimed@;
            let ghost held = self.entries@;
            if !self.entries.contains_key(&id) {
                claimed.push(id);
                self.entries.insert(id, false);
                proof {
                    assert(ids@.contains(ids@[k as int]));
                    assert(claimed@[before.len() as int] == id);
                    assert forall|x: usize| claimed@.contains(x) <==> before.contains(x) || x
                        == id by {
                        if before.contains(x) {
                            let j = choose|j: int| 0 <= j < before.len() && before[j] == x;
                            assert(claimed@[j] == x);
                        }
                    }
                }
            }
            assert(self.entries@ =~= old(self).entries@.union_prefer_right(
                Map::new(|x: usize| claimed@.contains(x), |x: usize| false),
            ));
            assert forall|j: int| 0 <= j < k + 1 && !old(self).entries@.contains_key(
                #[trigger] ids@[j],
            ) implies claimed@.contains(ids@[j]) by {
                if j < k {
                    let m = choose|m: int| 0 <= m < before.len() && before[m] == ids@[j];
                    assert(claimed@[m] == ids@[j]);
                } else if held.contains_key(id) {
                    assert(before.contains(id));
                }
            }
            k = k + 1;
        }
        proof {
            assert(exists|j: int|
                0 <= j < ids@.len() && !is_ready(old(self).entries@, #[trigger] ids@[j]));
        }
        Claim::Load(claimed)
    }

    /// A claimed block is decoded.
    pub fn mark_ready(&mut self, id: usize)
        ensures
            final(self).entries@ == if is_loading(old(self).entries@, id) {
                old(self).entries@.insert(id, true)
            } else {
                old(self).entries@
            },
    {
        broadcast use vstd::std_specs::btree::group_btree_axioms;

        let loading: bool = match self.entries.get(&id) {
            Some(ready) => !*ready,
            None => false,
        };
        if loading {
            self.entries.insert(id, true);
        }
    }

    /// A loader is done, or has failed: what it claimed and did not decode can be claimed again.
    pub fn release(&mut self, ids: &[usize])
        ensures
            forall|id: usize|
                #[trigger] final(self).entries@.contains_key(id) <==> old(
                    self,
                ).entries@.contains_key(id) && !(ids@.contains(id) && is_loading(
                    old(self).entries@,
                    id,
                )),
            forall|id: usize| #[trigger]
                final(self).entries@.contains_key(id) ==> final(self).entries@[id] == old(
                    self,
                ).entries@[id],
    {
        broadcast use vstd::std_specs::btree::group_btree_axioms;

        let mut i: usize = 0;
        while i < ids.len()
            invariant
                i <= ids.len(),
                forall|id: usize|
                    #[trigger] self.entries@.contains_key(id) <==> old(self).entries@.contains_key(
                        id,
                    ) && !(ids@.take(i as int).contains(id) && is_loading(old(self).entries@, id)),
                forall|id: usize| #[trigger]
                    self.entries@.contains_key(id) ==> self.entries@[id] == old(self).entries@[id],
            decreases ids.len() - i,
        {
            let id: usize = ids[i];
            let loading: bool = match self.entries.get(&id) {
                Some(ready) => !*ready,
                None => false,
            };
            if loading {
                self.entries.remove(&id);
            }
            proof {
                let front = ids@.take(i as int);
                let more = ids@.take(i + 1);
                assert forall|x: usize| more.contains(x) <==> front.contains(x) || x == id by {
                    assert(more =~= front.push(id));
                    if front.contains(x) {
                        let j = choose|j: int| 0 <= j < front.len() && front[j] == x;
                        assert(more[j] == x);
                    }
                    assert(more[i as int] == id);
                }
            }
            i = i + 1;
        }
        assert(ids@.take(i as int) =~= ids@);
    }
}

/// Runs `start..end` are of one pack.
pub open spec fn one_pack(runs: Seq<PackRun>, start: int, end: int) -> bool {
    forall|r: int| start <= r < end ==> (#[trigger] runs[r]).pack == runs[start].pack
}

/// Consecutive runs of one pack, as far as they go.
pub open spec fn pack_groups_of(groups: Seq<(usize, usize)>, runs: Seq<PackRun>, done: int) -> bool {
    &&& forall|g: int|
        0 <= g < groups.len() ==> {
            let (start, end) = #[trigger] groups[g];
            &&& start < end <= done
            &&& start == crate::batches::boundary(groups, g)
            &&& one_pack(runs, start as int, end as int)
            &&& end < runs.len() ==> runs[end as int].pack != runs[start as int].pack
        }
    &&& crate::batches::boundary(groups, groups.len() as int) == done
}

/// Cut the runs where the pack changes: a group is fetched from one blob.
pub fn pack_groups(runs: &[PackRun]) -> (groups: Vec<(usize, usize)>)
    ensures
        pack_groups_of(groups@, runs@, runs@.len() as int),
{
    let mut groups: Vec<(usize, usize)> = Vec::new();
    let mut start: usize = 0;
    while start < runs.len()
        invariant
            start <= runs.len(),
            pack_groups_of(groups@, runs@, start as int),
        decreases runs.len() - start,
    {
        let mut end: usize = start + 1;
        while end < runs.len() && runs[end].pack == runs[start].pack
            invariant
                start < end <= runs.len(),
                one_pack(runs@, start as int, end as int),
            decreases runs.len() - end,
        {
            end = end + 1;
        }
        let ghost before = groups@;
        groups.push((start, end));
        proof {
            assert forall|g: int| 0 <= g < groups@.len() implies {
                let (s, e) = #[trigger] groups@[g];
                &&& s < e <= end
                &&& s == crate::batches::boundary(groups@, g)
                &&& one_pack(runs@, s as int, e as int)
                &&& e < runs@.len() ==> runs@[e as int].pack != runs@[s as int].pack
            } by {
                if g < before.len() {
                    assert(groups@[g] == before[g]);
                    assert(crate::batches::boundary(groups@, g) == crate::batches::boundary(
                        before,
                        g,
                    ));
                }
            }
        }
        start = end;
    }
    groups
}

/// The first `n` runs that the cache does not hold whole.
pub open spec fn misses(cached: Seq<Option<Vec<Vec<u8>>>>, n: int) -> Seq<int>
    decreases n,
{
    if n <= 0 {
        Seq::empty()
    } else if cached[n - 1] is None {
        misses(cached, n - 1).push(n - 1)
    } else {
        misses(cached, n - 1)
    }
}

pub proof fn lemma_misses_bound(cached: Seq<Option<Vec<Vec<u8>>>>, n: int)
    ensures
        misses(cached, n).len() <= if n < 0 {
            0
        } else {
            n
        },
        forall|i: int|
            0 <= i < misses(cached, n).len() ==> 0 <= #[trigger] misses(cached, n)[i] < n
                && cached[misses(cached, n)[i]] is None,
    decreases n,
{
    if n > 0 {
        lemma_misses_bound(cached, n - 1);
        let front = misses(cached, n - 1);
        assert forall|i: int| 0 <= i < misses(cached, n).len() implies 0 <= #[trigger] misses(
            cached,
            n,
        )[i] < n && cached[misses(cached, n)[i]] is None by {
            if i < front.len() {
                assert(0 <= front[i] < n - 1);
            }
        }
    }
}

/// The pack that a run lies in.
pub fn run_pack<'a>(packs: &'a [PackMeta], run: &PackRun) -> (pack: Result<&'a PackMeta, IndexError>)
    ensures
        match pack {
            Ok(pack) => run.pack < packs@.len() && *pack == packs@[run.pack as int],
            Err(e) => run.pack >= packs@.len() && e == IndexError::PackIdBounds,
        },
{
    let id: usize = run.pack as usize;
    if id < packs.len() {
        Ok(&packs[id])
    } else {
        Err(IndexError::PackIdBounds)
    }
}

/// What to fetch for the runs that the cache does not hold whole.
pub fn miss_ranges(
    batch: &[PackRun],
    cached: &[Option<Vec<Vec<u8>>>],
    pack_len: u64,
) -> (ranges: Result<Vec<(u64, u64)>, IndexError>)
    requires
        cached@.len() == batch@.len(),
    ensures
        ({
            let missing = misses(cached@, batch@.len() as int);
            match ranges {
                Ok(list) => list@.len() == missing.len() && forall|i: int|
                    0 <= i < list@.len() ==> #[trigger] list@[i] == (
                        batch@[missing[i]].offset,
                        batch@[missing[i]].len,
                    ) && crate::pack::capped(list@[i].0 as int, list@[i].1 as int) <= pack_len,
                Err(e) => e == IndexError::PackRangeBounds && exists|i: int|
                    0 <= i < missing.len() && crate::pack::capped(
                        batch@[#[trigger] missing[i]].offset as int,
                        batch@[missing[i]].len as int,
                    ) > pack_len,
            }
        }),
{
    let mut ranges: Vec<(u64, u64)> = Vec::new();
    let mut r: usize = 0;
    let ghost missing = misses(cached@, batch@.len() as int);
    let mut over: bool = false;
    let ghost mut witness: int = 0;
    while r < batch.len()
        invariant
            r <= batch.len(),
            cached@.len() == batch@.len(),
            ranges@.len() == misses(cached@, r as int).len(),
            forall|i: int|
                0 <= i < ranges@.len() ==> #[trigger] ranges@[i] == (
                    batch@[misses(cached@, r as int)[i]].offset,
                    batch@[misses(cached@, r as int)[i]].len,
                ),
            !over ==> forall|i: int|
                0 <= i < ranges@.len() ==> crate::pack::capped(
                    (#[trigger] ranges@[i]).0 as int,
                    ranges@[i].1 as int,
                ) <= pack_len,
            over ==> 0 <= witness < ranges@.len() && crate::pack::capped(
                ranges@[witness].0 as int,
                ranges@[witness].1 as int,
            ) > pack_len,
        decreases batch.len() - r,
    {
        let ghost front = misses(cached@, r as int);
        proof {
            lemma_misses_bound(cached@, r as int);
        }
        if cached[r].is_none() {
            let end: u64 = batch[r].offset.saturating_add(batch[r].len);
            ranges.push((batch[r].offset, batch[r].len));
            if end > pack_len {
                over = true;
                proof {
                    witness = front.len() as int;
                }
            }
        }
        r = r + 1;
    }
    if over {
        assert(ranges@[witness] == (
            batch@[missing[witness]].offset,
            batch@[missing[witness]].len,
        ));
        return Err(IndexError::PackRangeBounds);
    }
    Ok(ranges)
}

/// The bytes of block `j` of a run.
pub open spec fn run_frame(run: RunView, blocks: Seq<PackBlock>, bytes: Seq<u8>, j: int) -> Seq<u8> {
    bytes.subrange(
        crate::pack::compressed_before(run.blocks, blocks, j) as int,
        crate::pack::compressed_before(run.blocks, blocks, j + 1) as int,
    )
}

/// Block `j` of the run has its hash.
pub open spec fn frame_hashes(
    run: RunView,
    blocks: Seq<PackBlock>,
    bytes: Seq<u8>,
    j: int,
) -> bool {
    blocks[run.blocks[j] as int].hash@ == crate::digest::sha256_of(
        run_frame(run, blocks, bytes, j),
    )@
}

/// The bytes are those of the run: as many as its blocks take, each with its hash.
pub open spec fn run_valid(run: RunView, blocks: Seq<PackBlock>, bytes: Seq<u8>) -> bool {
    &&& bytes.len() == run.len
    &&& bytes.len() == crate::pack::compressed_before(run.blocks, blocks, run.blocks.len() as int)
    &&& forall|j: int|
        0 <= j < run.blocks.len() ==> #[trigger] frame_hashes(run, blocks, bytes, j)
}

proof fn lemma_compressed_grows(ids: Seq<usize>, blocks: Seq<PackBlock>, a: int, b: int)
    requires
        a <= b,
    ensures
        crate::pack::compressed_before(ids, blocks, a) <= crate::pack::compressed_before(ids, blocks, b),
    decreases b - a,
{
    if a < b {
        lemma_compressed_grows(ids, blocks, a, b - 1);
    }
}

/// What is wrong with the bytes of a run from block `j` on.
pub open spec fn split_error_from(
    run: RunView,
    blocks: Seq<PackBlock>,
    bytes: Seq<u8>,
    j: int,
) -> Option<IndexError>
    decreases run.blocks.len() - j,
{
    if j >= run.blocks.len() {
        if crate::pack::compressed_before(run.blocks, blocks, j) == bytes.len() {
            None
        } else {
            Some(IndexError::PackRangeLength)
        }
    } else if crate::pack::compressed_before(run.blocks, blocks, j + 1) > bytes.len() {
        Some(IndexError::PackRangeLength)
    } else if !frame_hashes(run, blocks, bytes, j) {
        Some(IndexError::PackBlockHash)
    } else {
        split_error_from(run, blocks, bytes, j + 1)
    }
}

/// The first thing wrong with the bytes of a run: their number, or a block that does not have its
/// hash.
pub open spec fn split_error(
    run: RunView,
    blocks: Seq<PackBlock>,
    bytes: Seq<u8>,
) -> Option<IndexError> {
    if bytes.len() != run.len {
        Some(IndexError::PackRangeLength)
    } else {
        split_error_from(run, blocks, bytes, 0)
    }
}

proof fn lemma_split_error(run: RunView, blocks: Seq<PackBlock>, bytes: Seq<u8>, j: int)
    requires
        0 <= j <= run.blocks.len(),
        forall|k: int| 0 <= k < j ==> #[trigger] frame_hashes(run, blocks, bytes, k),
    ensures
        split_error_from(run, blocks, bytes, j) is None <==> bytes.len()
            == crate::pack::compressed_before(run.blocks, blocks, run.blocks.len() as int)
            && forall|k: int|
            0 <= k < run.blocks.len() ==> #[trigger] frame_hashes(run, blocks, bytes, k),
    decreases run.blocks.len() - j,
{
    if j < run.blocks.len() {
        lemma_compressed_grows(run.blocks, blocks, j + 1, run.blocks.len() as int);
        if frame_hashes(run, blocks, bytes, j) {
            lemma_split_error(run, blocks, bytes, j + 1);
        }
    }
}

/// The bytes of a run are split without an error if they are valid, and only then.
pub proof fn valid_runs_split(run: RunView, blocks: Seq<PackBlock>, bytes: Seq<u8>)
    ensures
        split_error(run, blocks, bytes) is None <==> run_valid(run, blocks, bytes),
{
    lemma_split_error(run, blocks, bytes, 0);
}

/// The frames of a run whose bytes were fetched.
pub open spec fn run_frames(run: RunView, blocks: Seq<PackBlock>, bytes: Seq<u8>) -> Seq<Seq<u8>> {
    Seq::new(run.blocks.len(), |j: int| run_frame(run, blocks, bytes, j))
}

pub open spec fn frame_views(frames: Seq<Vec<u8>>) -> Seq<Seq<u8>> {
    frames.map_values(|frame: Vec<u8>| frame@)
}

/// Cut the fetched bytes of a run into its blocks, and check every block's hash.
pub fn split_run(run: &PackRun, blocks: &[PackBlock], bytes: &[u8]) -> (frames: Result<
    Vec<Vec<u8>>,
    IndexError,
>)
    requires
        forall|j: int|
            0 <= j < run.blocks@.len() ==> #[trigger] run.blocks@[j] < blocks@.len(),
    ensures
        match frames {
            Ok(list) => split_error(run.run(), blocks@, bytes@) is None && frame_views(list@)
                == run_frames(run.run(), blocks@, bytes@),
            Err(e) => split_error(run.run(), blocks@, bytes@) == Some(e),
        },
{
    if bytes.len() as u64 != run.len {
        return Err(IndexError::PackRangeLength);
    }
    let ghost view = run.run();
    let mut frames: Vec<Vec<u8>> = Vec::new();
    let mut cursor: usize = 0;
    let mut j: usize = 0;
    while j < run.blocks.len()
        invariant
            j <= run.blocks.len(),
            view == run.run(),
            bytes@.len() == run.len,
            forall|k: int|
                0 <= k < run.blocks@.len() ==> #[trigger] run.blocks@[k] < blocks@.len(),
            cursor == crate::pack::compressed_before(view.blocks, blocks@, j as int),
            cursor <= bytes.len(),
            frames@.len() == j,
            forall|k: int|
                0 <= k < j ==> (#[trigger] frames@[k])@ == run_frame(view, blocks@, bytes@, k),
            split_error_from(view, blocks@, bytes@, 0) == split_error_from(
                view,
                blocks@,
                bytes@,
                j as int,
            ),
        decreases run.blocks.len() - j,
    {
        let block = &blocks[run.blocks[j]];
        assert(view.blocks[j as int] == run.blocks@[j as int]);
        if block.compressed_len as u64 > (bytes.len() - cursor) as u64 {
            return Err(IndexError::PackRangeLength);
        }
        let end: usize = cursor + block.compressed_len as usize;
        let frame = vstd::slice::slice_subrange(bytes, cursor, end);
        if !hash_matches(frame, &block.hash) {
            assert(crate::pack::compressed_before(view.blocks, blocks@, j + 1) == end);
            assert(!frame_hashes(view, blocks@, bytes@, j as int));
            return Err(IndexError::PackBlockHash);
        }
        assert(frame_hashes(view, blocks@, bytes@, j as int));
        let mut copy: Vec<u8> = Vec::new();
        copy.extend_from_slice(frame);
        assert(copy@ =~= frame@);
        frames.push(copy);
        cursor = end;
        j = j + 1;
    }
    if cursor != bytes.len() {
        return Err(IndexError::PackRangeLength);
    }
    assert(frame_views(frames@) =~= run_frames(view, blocks@, bytes@));
    Ok(frames)
}

/// A block decodes from its frame.
pub open spec fn frame_good(block: PackBlock, frame: Seq<u8>) -> bool {
    block.hash@ == crate::digest::sha256_of(frame)@ && (crate::pack_build::zstd_content(
        frame,
    ) matches Some(bytes) && bytes.len() == block.decoded_len)
}

/// A block does not decode from its frame, and `e` says why. Whether a frame that holds something
/// else is found unreadable or of the wrong length depends on how much room there was for it.
pub open spec fn frame_fault(block: PackBlock, frame: Seq<u8>, e: IndexError) -> bool {
    if block.hash@ != crate::digest::sha256_of(frame)@ {
        e == IndexError::PackBlockHash
    } else {
        !frame_good(block, frame) && (e == IndexError::PackBlockUnreadable || e
            == IndexError::PackBlockDecoded)
    }
}

/// Block `j` is the first that does not decode.
pub open spec fn first_fault(
    ids: Seq<usize>,
    blocks: Seq<PackBlock>,
    frames: Seq<Seq<u8>>,
    j: int,
    e: IndexError,
) -> bool {
    &&& 0 <= j < ids.len()
    &&& frame_fault(blocks[ids[j] as int], frames[j], e)
    &&& forall|i: int| 0 <= i < j ==> frame_good(blocks[#[trigger] ids[i] as int], frames[i])
}

/// All blocks decode from their frames.
pub open spec fn frames_good(
    ids: Seq<usize>,
    blocks: Seq<PackBlock>,
    frames: Seq<Seq<u8>>,
) -> bool {
    forall|j: int| 0 <= j < ids.len() ==> frame_good(blocks[#[trigger] ids[j] as int], frames[j])
}

/// The blocks with what their frames hold.
pub open spec fn run_items(ids: Seq<usize>, frames: Seq<Seq<u8>>) -> Seq<(usize, Seq<u8>)> {
    Seq::new(
        ids.len(),
        |j: int| (ids[j], crate::pack_build::zstd_content(frames[j])->Some_0),
    )
}

pub open spec fn item_views(items: Seq<(usize, Vec<u8>)>) -> Seq<(usize, Seq<u8>)> {
    items.map_values(|item: (usize, Vec<u8>)| (item.0, item.1@))
}

/// Decode the blocks of a run, in order.
pub fn decode_run(
    run: &PackRun,
    blocks: &[PackBlock],
    frames: &[Vec<u8>],
    output: &mut Vec<(usize, Vec<u8>)>,
) -> (decoded: Result<(), IndexError>)
    requires
        frames@.len() == run.blocks@.len(),
        forall|j: int|
            0 <= j < run.blocks@.len() ==> #[trigger] run.blocks@[j] < blocks@.len()
                && blocks@[run.blocks@[j] as int].decoded_len <= i32::MAX,
    ensures
        match decoded {
            Ok(_) => frames_good(run.blocks@, blocks@, frame_views(frames@)) && item_views(
                final(output)@,
            ) == item_views(old(output)@) + run_items(run.blocks@, frame_views(frames@)),
            Err(e) => exists|j: int| #[trigger]
                first_fault(run.blocks@, blocks@, frame_views(frames@), j, e),
        },
{
    let ghost before = item_views(output@);
    let ghost views = frame_views(frames@);
    let ghost items = run_items(run.blocks@, views);
    let mut j: usize = 0;
    assert(before + items.take(0) =~= before);
    while j < run.blocks.len()
        invariant
            j <= run.blocks.len(),
            frames@.len() == run.blocks@.len(),
            views == frame_views(frames@),
            items == run_items(run.blocks@, views),
            forall|k: int|
                0 <= k < run.blocks@.len() ==> #[trigger] run.blocks@[k] < blocks@.len()
                    && blocks@[run.blocks@[k] as int].decoded_len <= i32::MAX,
            forall|i: int|
                0 <= i < j ==> frame_good(blocks@[#[trigger] run.blocks@[i] as int], views[i]),
            item_views(output@) == before + items.take(j as int),
        decreases run.blocks.len() - j,
    {
        let id: usize = run.blocks[j];
        assert(views[j as int] == frames@[j as int]@);
        match decode_block(&blocks[id], frames[j].as_slice()) {
            Ok(bytes) => {
                let ghost held = output@;
                output.push((id, bytes));
                assert(items[j as int] == (id, bytes@));
                assert(item_views(output@) =~= item_views(held).push((id, bytes@)));
                assert(item_views(output@) =~= before + items.take(j + 1));
            },
            Err(e) => {
                assert(first_fault(run.blocks@, blocks@, views, j as int, e));
                return Err(e);
            },
        }
        j = j + 1;
    }
    assert(items.take(j as int) =~= items);
    Ok(())
}

/// What was fetched for run `r`, which was not cached.
pub open spec fn fetched_for(
    cached: Seq<Option<Vec<Vec<u8>>>>,
    fetched: Seq<Vec<u8>>,
    r: int,
) -> Seq<u8> {
    fetched[misses(cached, r).len() as int]@
}

/// The frames that run `r` is decoded from: the cached ones, or those in what was fetched.
pub open spec fn batch_frames(
    batch: Seq<PackRun>,
    blocks: Seq<PackBlock>,
    cached: Seq<Option<Vec<Vec<u8>>>>,
    fetched: Seq<Vec<u8>>,
    r: int,
) -> Seq<Seq<u8>> {
    match cached[r] {
        Some(frames) => frame_views(frames@),
        None => run_frames(batch[r].run(), blocks, fetched_for(cached, fetched, r)),
    }
}

/// What is wrong with the bytes that were fetched for run `r`, if they were.
pub open spec fn fetch_error(
    batch: Seq<PackRun>,
    blocks: Seq<PackBlock>,
    cached: Seq<Option<Vec<Vec<u8>>>>,
    fetched: Seq<Vec<u8>>,
    r: int,
) -> Option<IndexError> {
    if cached[r] is Some {
        None
    } else {
        split_error(batch[r].run(), blocks, fetched_for(cached, fetched, r))
    }
}

/// Run `r` can be decoded.
pub open spec fn run_readable(
    batch: Seq<PackRun>,
    blocks: Seq<PackBlock>,
    cached: Seq<Option<Vec<Vec<u8>>>>,
    fetched: Seq<Vec<u8>>,
    r: int,
) -> bool {
    &&& fetch_error(batch, blocks, cached, fetched, r) is None
    &&& frames_good(
        batch[r].blocks@,
        blocks,
        batch_frames(batch, blocks, cached, fetched, r),
    )
}

/// Run `r` cannot be decoded, and `e` says why.
pub open spec fn run_fails(
    batch: Seq<PackRun>,
    blocks: Seq<PackBlock>,
    cached: Seq<Option<Vec<Vec<u8>>>>,
    fetched: Seq<Vec<u8>>,
    r: int,
    e: IndexError,
) -> bool {
    match fetch_error(batch, blocks, cached, fetched, r) {
        Some(error) => e == error,
        None => exists|j: int| #[trigger]
            first_fault(
                batch[r].blocks@,
                blocks,
                batch_frames(batch, blocks, cached, fetched, r),
                j,
                e,
            ),
    }
}

/// What the first `n` runs decode to.
pub open spec fn batch_items(
    batch: Seq<PackRun>,
    blocks: Seq<PackBlock>,
    cached: Seq<Option<Vec<Vec<u8>>>>,
    fetched: Seq<Vec<u8>>,
    n: int,
) -> Seq<(usize, Seq<u8>)>
    decreases n,
{
    if n <= 0 {
        Seq::empty()
    } else {
        batch_items(batch, blocks, cached, fetched, n - 1) + run_items(
            batch[n - 1].blocks@,
            batch_frames(batch, blocks, cached, fetched, n - 1),
        )
    }
}

/// Decode a batch of runs of one pack. The blocks come out in the order of the runs, whether they
/// were cached or fetched.
#[verifier::rlimit(30)]
pub fn resolve_batch(
    batch: &[PackRun],
    blocks: &[PackBlock],
    cached: &[Option<Vec<Vec<u8>>>],
    fetched: &[Vec<u8>],
) -> (decoded: Result<Vec<(usize, Vec<u8>)>, IndexError>)
    requires
        cached@.len() == batch@.len(),
        forall|r: int, j: int|
            0 <= r < batch@.len() && 0 <= j < batch@[r].blocks@.len() ==> #[trigger] batch@[r].blocks@[j]
                < blocks@.len() && blocks@[batch@[r].blocks@[j] as int].decoded_len <= i32::MAX,
        forall|r: int|
            0 <= r < batch@.len() ==> (#[trigger] cached@[r] matches Some(frames) ==> frames@.len()
                == batch@[r].blocks@.len()),
    ensures
        ({
            let asked = misses(cached@, batch@.len() as int).len();
            match decoded {
                Ok(list) => {
                    &&& fetched@.len() == asked
                    &&& forall|r: int|
                        0 <= r < batch@.len() ==> #[trigger] run_readable(
                            batch@,
                            blocks@,
                            cached@,
                            fetched@,
                            r,
                        )
                    &&& item_views(list@) == batch_items(
                        batch@,
                        blocks@,
                        cached@,
                        fetched@,
                        batch@.len() as int,
                    )
                },
                Err(e) => if fetched@.len() != asked {
                    e == (IndexError::PackRangeCount {
                        fetched: fetched@.len() as usize,
                        asked: asked as usize,
                    })
                } else {
                    exists|r: int|
                        0 <= r < batch@.len() && #[trigger] run_fails(
                            batch@,
                            blocks@,
                            cached@,
                            fetched@,
                            r,
                            e,
                        ) && forall|q: int|
                            0 <= q < r ==> #[trigger] run_readable(
                                batch@,
                                blocks@,
                                cached@,
                                fetched@,
                                q,
                            )
                },
            }
        }),
{
    let mut count: usize = 0;
    let mut m: usize = 0;
    while m < cached.len()
        invariant
            m <= cached.len(),
            count <= m,
            count == misses(cached@, m as int).len(),
        decreases cached.len() - m,
    {
        if cached[m].is_none() {
            count = count + 1;
        }
        m = m + 1;
    }
    if fetched.len() != count {
        return Err(IndexError::PackRangeCount { fetched: fetched.len(), asked: count });
    }
    let mut output: Vec<(usize, Vec<u8>)> = Vec::new();
    let mut at: usize = 0;
    let mut r: usize = 0;
    assert(item_views(output@) =~= Seq::<(usize, Seq<u8>)>::empty());
    while r < batch.len()
        invariant
            r <= batch.len(),
            cached@.len() == batch@.len(),
            fetched@.len() == misses(cached@, batch@.len() as int).len(),
            at == misses(cached@, r as int).len(),
            forall|q: int, j: int|
                0 <= q < batch@.len() && 0 <= j < batch@[q].blocks@.len()
                    ==> #[trigger] batch@[q].blocks@[j] < blocks@.len()
                    && blocks@[batch@[q].blocks@[j] as int].decoded_len <= i32::MAX,
            forall|q: int|
                0 <= q < batch@.len() ==> (#[trigger] cached@[q] matches Some(
                    frames,
                ) ==> frames@.len() == batch@[q].blocks@.len()),
            forall|q: int|
                0 <= q < r ==> #[trigger] run_readable(batch@, blocks@, cached@, fetched@, q),
            item_views(output@) == batch_items(batch@, blocks@, cached@, fetched@, r as int),
        decreases batch.len() - r,
    {
        let run = &batch[r];
        proof {
            lemma_misses_grow(cached@, r + 1, batch@.len() as int);
        }
        match &cached[r] {
            Some(frames) => {
                assert(frame_views(frames@) == batch_frames(
                    batch@,
                    blocks@,
                    cached@,
                    fetched@,
                    r as int,
                ));
                match decode_run(run, blocks, frames.as_slice(), &mut output) {
                    Ok(_) => {},
                    Err(e) => {
                        proof {
                            let j = choose|j: int| #[trigger]
                                first_fault(run.blocks@, blocks@, frame_views(frames@), j, e);
                            assert(first_fault(
                                batch@[r as int].blocks@,
                                blocks@,
                                batch_frames(batch@, blocks@, cached@, fetched@, r as int),
                                j,
                                e,
                            ));
                            assert(run_fails(batch@, blocks@, cached@, fetched@, r as int, e));
                        }
                        return Err(e);
                    },
                }
            },
            None => {
                let frames = match split_run(run, blocks, fetched[at].as_slice()) {
                    Ok(frames) => frames,
                    Err(e) => {
                        assert(run_fails(batch@, blocks@, cached@, fetched@, r as int, e));
                        return Err(e);
                    },
                };
                assert(frame_views(frames@).len() == run.blocks@.len());
                assert(frame_views(frames@) == batch_frames(
                    batch@,
                    blocks@,
                    cached@,
                    fetched@,
                    r as int,
                ));
                match decode_run(run, blocks, frames.as_slice(), &mut output) {
                    Ok(_) => {},
                    Err(e) => {
                        proof {
                            let j = choose|j: int| #[trigger]
                                first_fault(run.blocks@, blocks@, frame_views(frames@), j, e);
                            assert(first_fault(
                                batch@[r as int].blocks@,
                                blocks@,
                                batch_frames(batch@, blocks@, cached@, fetched@, r as int),
                                j,
                                e,
                            ));
                            assert(run_fails(batch@, blocks@, cached@, fetched@, r as int, e));
                        }
                        return Err(e);
                    },
                }
                at = at + 1;
            },
        }
        assert(run_readable(batch@, blocks@, cached@, fetched@, r as int));
        r = r + 1;
    }
    Ok(output)
}

proof fn lemma_misses_grow(cached: Seq<Option<Vec<Vec<u8>>>>, a: int, b: int)
    requires
        a <= b,
    ensures
        misses(cached, a).len() <= misses(cached, b).len(),
    decreases b - a,
{
    if a < b {
        lemma_misses_grow(cached, a, b - 1);
    }
}

/// The bytes that a pack holds at a run's place pass every check, and each block decodes to what
/// was stored.
pub proof fn stored_runs_are_valid(
    packs: Seq<Seq<u8>>,
    blocks: Seq<PackBlock>,
    block_bytes: int,
    run: RunView,
)
    requires
        crate::pack_build::blocks_stored(packs, blocks, block_bytes),
        crate::pack::run_contiguous(run, blocks),
        run.blocks.len() > 0,
        forall|j: int| 0 <= j < run.blocks.len() ==> #[trigger] run.blocks[j] < blocks.len(),
    ensures
        run.pack < packs.len(),
        run.offset + run.len <= packs[run.pack as int].len(),
        ({
            let bytes = packs[run.pack as int].subrange(
                run.offset as int,
                run.offset + run.len,
            );
            &&& run_valid(run, blocks, bytes)
            &&& forall|j: int|
                0 <= j < run.blocks.len() ==> #[trigger] frame_good(
                    blocks[run.blocks[j] as int],
                    run_frame(run, blocks, bytes, j),
                ) && crate::pack_build::zstd_content(run_frame(run, blocks, bytes, j)) == Some(
                    crate::pack_build::block_content(packs, blocks[run.blocks[j] as int]),
                )
        }),
{
    let n = run.blocks.len() as int;
    let bytes = packs[run.pack as int].subrange(run.offset as int, run.offset + run.len);
    lemma_run_block(packs, blocks, block_bytes, run, n - 1);
    assert forall|j: int| 0 <= j < n implies #[trigger] frame_hashes(run, blocks, bytes, j) by {
        lemma_run_block(packs, blocks, block_bytes, run, j);
    }
    assert forall|j: int| 0 <= j < n implies #[trigger] frame_good(
        blocks[run.blocks[j] as int],
        run_frame(run, blocks, bytes, j),
    ) && crate::pack_build::zstd_content(run_frame(run, blocks, bytes, j)) == Some(
        crate::pack_build::block_content(packs, blocks[run.blocks[j] as int]),
    ) by {
        lemma_run_block(packs, blocks, block_bytes, run, j);
    }
}

proof fn lemma_run_block(
    packs: Seq<Seq<u8>>,
    blocks: Seq<PackBlock>,
    block_bytes: int,
    run: RunView,
    j: int,
)
    requires
        crate::pack_build::blocks_stored(packs, blocks, block_bytes),
        crate::pack::run_contiguous(run, blocks),
        0 <= j < run.blocks.len(),
        forall|k: int| 0 <= k < run.blocks.len() ==> #[trigger] run.blocks[k] < blocks.len(),
    ensures
        run.pack < packs.len(),
        j + 1 == run.blocks.len() ==> run.offset + run.len <= packs[run.pack as int].len(),
        run.offset + run.len <= packs[run.pack as int].len() ==> ({
            let bytes = packs[run.pack as int].subrange(
                run.offset as int,
                run.offset + run.len,
            );
            let block = blocks[run.blocks[j] as int];
            &&& run_frame(run, blocks, bytes, j) == crate::pack_build::block_frame(packs, block)
            &&& frame_hashes(run, blocks, bytes, j)
            &&& frame_good(block, run_frame(run, blocks, bytes, j))
            &&& crate::pack_build::zstd_content(run_frame(run, blocks, bytes, j)) == Some(
                crate::pack_build::block_content(packs, block),
            )
        }),
{
    let id = run.blocks[j] as int;
    let block = blocks[id];
    assert(crate::pack_build::block_stored(packs, blocks[id], block_bytes));
    lemma_compressed_grows(run.blocks, blocks, j + 1, run.blocks.len() as int);
    if run.offset + run.len <= packs[run.pack as int].len() {
        let bytes = packs[run.pack as int].subrange(run.offset as int, run.offset + run.len);
        assert(run_frame(run, blocks, bytes, j) =~= crate::pack_build::block_frame(packs, block));
    }
}

/// What is fetched are the runs that are not cached, in their order.
pub proof fn misses_are_what_is_not_cached(cached: Seq<Option<Vec<Vec<u8>>>>, n: int, r: int)
    requires
        0 <= n <= cached.len(),
    ensures
        misses(cached, n).contains(r) <==> 0 <= r < n && cached[r] is None,
        forall|a: int, b: int|
            0 <= a < b < misses(cached, n).len() ==> (#[trigger] misses(cached, n)[a]) < (
            #[trigger] misses(cached, n)[b]),
        forall|a: int| 0 <= a < misses(cached, n).len() ==> 0 <= #[trigger] misses(cached, n)[a] < n,
    decreases n,
{
    if n > 0 {
        misses_are_what_is_not_cached(cached, n - 1, r);
        let before = misses(cached, n - 1);
        let all = misses(cached, n);
        if before.contains(r) {
            let k = choose|k: int| 0 <= k < before.len() && before[k] == r;
            assert(all[k] == r);
        }
        if all.contains(r) {
            let k = choose|k: int| 0 <= k < all.len() && all[k] == r;
            if k < before.len() {
                assert(before[k] == r);
            }
        }
        if r == n - 1 && cached[r] is None {
            assert(all[all.len() - 1] == r);
        }
    }
}

} // verus!
