//! Fetching whole documents: small ones by the window, large ones block by block.

use std::collections::BTreeSet;
use vstd::prelude::*;

use crate::error::IndexError;
use crate::format::PackBlock;
use crate::pack::collect_request_blocks;
use crate::pack::document_blocks;
use crate::pack::ByteRange;
use crate::pack::DocumentBlock;
use crate::pack::PackRequest;

verus! {

/// The parts of a requested document.
pub open spec fn request_parts(request: PackRequest, blocks: Seq<PackBlock>) -> Seq<DocumentBlock> {
    crate::pack::document_parts(request.slice, request.decoded_size, blocks)
}

/// The blocks of a requested document; an empty one has none.
pub open spec fn request_blocks(request: PackRequest, blocks: Seq<PackBlock>) -> Set<usize> {
    if request.decoded_size == 0 {
        Set::empty()
    } else {
        crate::pack::touched_blocks(
            request_parts(request, blocks),
            seq![ByteRange { start: 0, end: request.decoded_size }],
        )
    }
}

/// The blocks of the first `n` requests.
pub open spec fn window_blocks(
    requests: Seq<PackRequest>,
    blocks: Seq<PackBlock>,
    n: int,
) -> Set<usize>
    decreases n,
{
    if n <= 0 {
        Set::empty()
    } else {
        window_blocks(requests, blocks, n - 1).union(request_blocks(requests[n - 1], blocks))
    }
}

/// The first thing wrong with the requests from `i` on.
pub open spec fn window_error(
    requests: Seq<PackRequest>,
    blocks: Seq<PackBlock>,
    i: int,
) -> Option<IndexError>
    decreases requests.len() - i,
{
    if i >= requests.len() {
        None
    } else {
        match crate::pack::document_span(requests[i].slice, requests[i].decoded_size, blocks) {
            Err(e) => Some(e),
            Ok(_) => window_error(requests, blocks, i + 1),
        }
    }
}

/// Plan a window of whole documents: the parts of each, and the blocks to load for all.
pub fn plan_documents(
    requests: &[PackRequest],
    blocks: &[PackBlock],
) -> (plan: Result<(Vec<Vec<DocumentBlock>>, BTreeSet<usize>), IndexError>)
    ensures
        match plan {
            Ok((parts, ids)) => {
                &&& window_error(requests@, blocks@, 0) is None
                &&& parts@.len() == requests@.len()
                &&& forall|i: int|
                    0 <= i < parts@.len() ==> (#[trigger] parts@[i])@ == request_parts(
                        requests@[i],
                        blocks@,
                    )
                &&& ids@ == window_blocks(requests@, blocks@, requests@.len() as int)
            },
            Err(e) => window_error(requests@, blocks@, 0) == Some(e),
        },
{
    broadcast use vstd::std_specs::btree::group_btree_axioms;

    let mut ids: BTreeSet<usize> = BTreeSet::new();
    let mut parts: Vec<Vec<DocumentBlock>> = Vec::new();
    let mut i: usize = 0;
    assert(ids@ =~= window_blocks(requests@, blocks@, 0));
    while i < requests.len()
        invariant
            i <= requests.len(),
            parts@.len() == i,
            window_error(requests@, blocks@, 0) == window_error(requests@, blocks@, i as int),
            ids@ == window_blocks(requests@, blocks@, i as int),
            forall|k: int|
                0 <= k < i ==> (#[trigger] parts@[k])@ == request_parts(requests@[k], blocks@),
        decreases requests.len() - i,
    {
        let request = &requests[i];
        match document_blocks(request.slice, request.decoded_size, blocks) {
            Ok(list) => parts.push(list),
            Err(e) => {
                return Err(e);
            },
        }
        if request.decoded_size > 0 {
            let mut whole: Vec<ByteRange> = Vec::new();
            whole.push(ByteRange { start: 0, end: request.decoded_size });
            assert(whole@ =~= seq![ByteRange { start: 0, end: request.decoded_size }]);
            if let Err(e) = collect_request_blocks(
                request.slice,
                request.decoded_size,
                whole.as_slice(),
                blocks,
                &mut ids,
            ) {
                return Err(e);
            }
        }
        assert(ids@ =~= window_blocks(requests@, blocks@, i + 1));
        i = i + 1;
    }
    Ok((parts, ids))
}

/// A large document that is put together block by block.
#[derive(Debug, Clone, Copy, PartialEq, Eq, Structural)]
pub struct LargeAssembly {
    /// Bytes still to come.
    pub remaining: u64,
    /// Where the document starts in the next block.
    pub block_offset: usize,
    /// Bytes put together so far.
    pub output_offset: u64,
}

impl LargeAssembly {
    /// What is done and what is to come make up the document.
    pub open spec fn wf(&self, size: u64) -> bool {
        self.output_offset + self.remaining == size
    }

    pub fn new(request: &PackRequest) -> (assembly: LargeAssembly)
        ensures
            assembly.wf(request.decoded_size),
            assembly.remaining == request.decoded_size,
            assembly.block_offset == request.slice.block_offset,
            assembly.output_offset == 0,
    {
        LargeAssembly {
            remaining: request.decoded_size,
            block_offset: request.slice.block_offset as usize,
            output_offset: 0,
        }
    }

    /// How many bytes of a decoded block belong to the document.
    pub open spec fn piece(&self, decoded_len: int) -> int {
        if self.remaining <= decoded_len - self.block_offset {
            self.remaining as int
        } else {
            decoded_len - self.block_offset
        }
    }

    /// Take the next decoded block: the part of it that belongs to the document, as its start and
    /// end, and where in the document the part goes.
    pub fn take_block(&mut self, decoded_len: usize, size: u64) -> (part: Result<
        (usize, usize, u64),
        IndexError,
    >)
        requires
            old(self).wf(size),
        ensures
            match part {
                Ok((start, end, at)) => {
                    &&& old(self).block_offset <= decoded_len
                    &&& start == old(self).block_offset
                    &&& end == start + old(self).piece(decoded_len as int)
                    &&& end <= decoded_len
                    &&& at == old(self).output_offset
                    &&& final(self).wf(size)
                    &&& final(self).output_offset == at + (end - start)
                    &&& final(self).block_offset == 0
                },
                Err(e) => old(self).block_offset > decoded_len && e
                    == IndexError::BlockOffsetBounds && *final(self) == *old(self),
            },
    {
        if self.block_offset > decoded_len {
            return Err(IndexError::BlockOffsetBounds);
        }
        let available: usize = decoded_len - self.block_offset;
        let take: usize = if self.remaining <= available as u64 {
            self.remaining as usize
        } else {
            available
        };
        let part: (usize, usize, u64) = (
            self.block_offset,
            self.block_offset + take,
            self.output_offset,
        );
        self.remaining = self.remaining - take as u64;
        self.output_offset = self.output_offset + take as u64;
        self.block_offset = 0;
        Ok(part)
    }

    /// The document is whole once no bytes are to come.
    pub fn finish(&self, size: u64) -> (finished: Result<(), IndexError>)
        requires
            self.wf(size),
        ensures
            match finished {
                Ok(_) => self.output_offset == size,
                Err(e) => self.output_offset < size && e == IndexError::DocumentTruncated,
            },
    {
        if self.remaining > 0 {
            return Err(IndexError::DocumentTruncated);
        }
        Ok(())
    }
}

/// A window needs the blocks of each of its documents, and no others.
pub proof fn windows_load_their_blocks(
    requests: Seq<PackRequest>,
    blocks: Seq<PackBlock>,
    n: int,
    id: usize,
)
    requires
        0 <= n <= requests.len(),
    ensures
        window_blocks(requests, blocks, n).contains(id) <==> exists|i: int|
            0 <= i < n && request_blocks(#[trigger] requests[i], blocks).contains(id),
    decreases n,
{
    if n > 0 {
        windows_load_their_blocks(requests, blocks, n - 1, id);
        if request_blocks(requests[n - 1], blocks).contains(id) {
            assert(request_blocks(requests[n - 1], blocks).contains(id));
        }
        if window_blocks(requests, blocks, n - 1).contains(id) {
            let i = choose|i: int|
                0 <= i < n - 1 && request_blocks(#[trigger] requests[i], blocks).contains(id);
            assert(request_blocks(requests[i], blocks).contains(id));
        }
    }
}

} // verus!
