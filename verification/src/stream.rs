//! Matching a pattern in a document that is read in chunks.

use vstd::prelude::*;
use vstd::slice::slice_to_vec;

use crate::error::IndexError;
use crate::program::Program;
use crate::search::FILE_MATCH_CHUNK;
use crate::search::FILE_MATCH_OVERLAP_MAX;

verus! {

/// The last `n` of `bytes`, or all of them.
pub open spec fn last_bytes(bytes: Seq<u8>, n: int) -> Seq<u8> {
    if bytes.len() <= n {
        bytes
    } else {
        bytes.skip(bytes.len() - n)
    }
}

/// A document that is read in chunks, each searched together with the end of what came before.
#[derive(Debug)]
pub struct StreamScan {
    pub carry: Vec<u8>,
    pub overlap: usize,
    pub chunk_bytes: usize,
    pub remaining: u64,
}

/// How a scan starts.
#[derive(Debug)]
pub enum StreamStart {
    /// Whether there is a match is known before anything is read.
    Settled(bool),
    Scan(StreamScan),
}

impl StreamScan {
    /// The bounds that a scan keeps.
    pub open spec fn wf(&self) -> bool {
        &&& self.overlap <= FILE_MATCH_OVERLAP_MAX
        &&& 0 < self.chunk_bytes <= FILE_MATCH_CHUNK
        &&& self.carry@.len() <= self.overlap
    }

    /// `seen` is what was read so far, and `text_len` the length of the document.
    pub open spec fn has_seen(&self, seen: Seq<u8>, text_len: int) -> bool {
        self.carry@ == last_bytes(seen, self.overlap as int) && seen.len() + self.remaining
            == text_len
    }

    /// Start a scan of `len` bytes for matches of at most `match_len` bytes.
    pub fn start(len: u64, match_len: usize) -> (start: Result<StreamStart, IndexError>)
        ensures
            match start {
                Ok(StreamStart::Settled(found)) => found == (len > 0) && (len == 0 || match_len
                    == 0),
                Ok(StreamStart::Scan(scan)) => len > 0 && match_len > 0 && scan.wf()
                    && scan.overlap == match_len - 1 && scan.remaining == len && scan.chunk_bytes
                    == (if len < FILE_MATCH_CHUNK {
                    len
                } else {
                    FILE_MATCH_CHUNK
                }) && scan.carry@.len() == 0 && scan.has_seen(Seq::empty(), len as int),
                Err(e) => len > 0 && match_len > FILE_MATCH_OVERLAP_MAX + 1 && e
                    == IndexError::StreamOverlap,
            },
    {
        if len == 0 {
            return Ok(StreamStart::Settled(false));
        }
        if match_len == 0 {
            return Ok(StreamStart::Settled(true));
        }
        let overlap: usize = match_len - 1;
        if overlap > FILE_MATCH_OVERLAP_MAX {
            return Err(IndexError::StreamOverlap);
        }
        let chunk_bytes: usize = if len < FILE_MATCH_CHUNK {
            len as usize
        } else {
            FILE_MATCH_CHUNK as usize
        };
        let scan = StreamScan { carry: Vec::new(), overlap, chunk_bytes, remaining: len };
        assert(scan.carry@ =~= Seq::<u8>::empty());
        Ok(StreamStart::Scan(scan))
    }

    /// How many bytes to read next; none once the document is read.
    pub open spec fn next_size(&self) -> int {
        if self.remaining < self.chunk_bytes {
            self.remaining as int
        } else {
            self.chunk_bytes as int
        }
    }

    /// How many bytes to read next.
    pub fn next_len(&self) -> (len: usize)
        requires
            self.wf(),
        ensures
            len == self.next_size(),
    {
        if self.remaining < self.chunk_bytes as u64 {
            self.remaining as usize
        } else {
            self.chunk_bytes
        }
    }

    /// What is searched when `bytes` have been read.
    pub open spec fn window(&self, bytes: Seq<u8>) -> Seq<u8> {
        self.carry@ + bytes
    }

    /// Search what was read next, together with the end of what came before.
    pub fn feed(&mut self, program: &Program, bytes: &[u8]) -> (found: bool)
        requires
            old(self).wf(),
            bytes@.len() == old(self).next_size(),
        ensures
            final(self).wf(),
            final(self).overlap == old(self).overlap,
            final(self).chunk_bytes == old(self).chunk_bytes,
            final(self).remaining == old(self).remaining - bytes@.len(),
            final(self).carry@ == last_bytes(
                old(self).window(bytes@),
                old(self).overlap as int,
            ),
            found == crate::program::regex_matches(program@, old(self).window(bytes@)),
    {
        let ghost window = self.window(bytes@);
        let mut chunk: Vec<u8> = Vec::new();
        chunk.extend_from_slice(self.carry.as_slice());
        chunk.extend_from_slice(bytes);
        assert(chunk@ =~= window);
        let found = program.is_match(chunk.as_slice());
        let end: usize = chunk.len();
        if end > self.overlap {
            let tail: &[u8] = vstd::slice::slice_subrange(
                chunk.as_slice(),
                end - self.overlap,
                end,
            );
            self.carry = slice_to_vec(tail);
            assert(self.carry@ =~= last_bytes(window, self.overlap as int));
        } else {
            self.carry = chunk;
        }
        self.remaining = self.remaining - bytes.len() as u64;
        found
    }
}

/// Every window is the end of what was read: the new bytes and the overlap before them.
pub proof fn windows_end_what_was_read(
    scan: StreamScan,
    seen: Seq<u8>,
    bytes: Seq<u8>,
    next: StreamScan,
    text_len: int,
)
    requires
        scan.has_seen(seen, text_len),
        bytes.len() <= scan.remaining,
        next.overlap == scan.overlap,
        next.remaining == scan.remaining - bytes.len(),
        next.carry@ == last_bytes(scan.window(bytes), scan.overlap as int),
    ensures
        scan.window(bytes) == last_bytes(
            seen + bytes,
            scan.overlap as int + bytes.len(),
        ),
        next.has_seen(seen + bytes, text_len),
{
    assert(scan.window(bytes) =~= last_bytes(seen + bytes, scan.overlap as int + bytes.len()));
    assert(next.carry@ =~= last_bytes(seen + bytes, scan.overlap as int));
}

/// No short match is lost between chunks: a stretch of at most `overlap + 1` bytes that ends
/// within the bytes read last lies within the window.
pub proof fn short_stretches_lie_in_windows(
    seen: Seq<u8>,
    bytes: Seq<u8>,
    overlap: int,
    start: int,
    end: int,
)
    requires
        0 <= overlap,
        0 <= start <= end,
        seen.len() < end <= seen.len() + bytes.len(),
        end - start <= overlap + 1,
    ensures
        ({
            let all = seen + bytes;
            let window = last_bytes(all, overlap + bytes.len());
            let skipped = all.len() - window.len();
            &&& skipped <= start
            &&& window.subrange(start - skipped, end - skipped) == all.subrange(start, end)
        }),
{
    let all = seen + bytes;
    let window = last_bytes(all, overlap + bytes.len());
    let skipped = all.len() - window.len();
    assert(window.subrange(start - skipped, end - skipped) =~= all.subrange(start, end));
}

/// What a scan answers that carries `carry` and has `rest` still to read: whether the pattern
/// matches in one of the windows.
pub open spec fn scan_answer(
    pattern: Seq<char>,
    carry: Seq<u8>,
    overlap: int,
    chunk_bytes: int,
    rest: Seq<u8>,
) -> bool
    decreases rest.len(),
{
    if rest.len() == 0 || chunk_bytes <= 0 {
        false
    } else {
        let n = if rest.len() < chunk_bytes {
            rest.len() as int
        } else {
            chunk_bytes
        };
        let window = carry + rest.take(n);
        crate::program::regex_matches(pattern, window) || scan_answer(
            pattern,
            last_bytes(window, overlap),
            overlap,
            chunk_bytes,
            rest.skip(n),
        )
    }
}

/// Search a document chunk by chunk for matches of at most `match_len` bytes.
pub fn has_stream_match(program: &Program, document: &[u8], match_len: usize) -> (found: Result<
    bool,
    IndexError,
>)
    ensures
        match found {
            Ok(found) => found == (if document@.len() == 0 || match_len == 0 {
                document@.len() > 0
            } else {
                scan_answer(
                    program@,
                    Seq::empty(),
                    match_len - 1,
                    if document@.len() < FILE_MATCH_CHUNK {
                        document@.len() as int
                    } else {
                        FILE_MATCH_CHUNK as int
                    },
                    document@,
                )
            }) && (document@.len() == 0 || match_len <= FILE_MATCH_OVERLAP_MAX + 1),
            Err(e) => document@.len() > 0 && match_len > FILE_MATCH_OVERLAP_MAX + 1 && e
                == IndexError::StreamOverlap,
        },
{
    let mut scan = match StreamScan::start(document.len() as u64, match_len) {
        Ok(StreamStart::Settled(found)) => return Ok(found),
        Ok(StreamStart::Scan(scan)) => scan,
        Err(e) => return Err(e),
    };
    let ghost chunk = scan.chunk_bytes as int;
    let ghost whole = scan_answer(program@, scan.carry@, scan.overlap as int, chunk, document@);
    let mut at: usize = 0;
    assert(scan.carry@ =~= Seq::<u8>::empty());
    assert(document@.skip(0) =~= document@);
    while at < document.len()
        invariant
            at <= document@.len(),
            scan.wf(),
            scan.overlap == match_len - 1,
            scan.chunk_bytes == chunk,
            scan.remaining == document@.len() - at,
            match_len > 0,
            match_len <= FILE_MATCH_OVERLAP_MAX + 1,
            chunk == (if document@.len() < FILE_MATCH_CHUNK {
                document@.len() as int
            } else {
                FILE_MATCH_CHUNK as int
            }),
            whole == scan_answer(program@, Seq::empty(), match_len - 1, chunk, document@),
            whole == scan_answer(
                program@,
                scan.carry@,
                scan.overlap as int,
                chunk,
                document@.skip(at as int),
            ),
        decreases document@.len() - at,
    {
        let n: usize = scan.next_len();
        let bytes: &[u8] = vstd::slice::slice_subrange(document, at, at + n);
        proof {
            let rest = document@.skip(at as int);
            assert(bytes@ =~= rest.take(n as int));
            assert(rest.skip(n as int) =~= document@.skip(at + n));
        }
        if scan.feed(program, bytes) {
            return Ok(true);
        }
        at = at + n;
    }
    assert(document@.skip(at as int).len() == 0);
    Ok(false)
}

/// `matched` says which texts the pattern matches: it matches in bytes where one of them stands in
/// the bytes, whatever is around it, and none is longer than `longest`.
pub open spec fn matches_texts(
    pattern: Seq<char>,
    matched: spec_fn(Seq<u8>) -> bool,
    longest: int,
) -> bool {
    &&& forall|bytes: Seq<u8>| #[trigger]
        crate::program::regex_matches(pattern, bytes) <==> exists|text: Seq<u8>|
            crate::planner::is_part(text, bytes) && #[trigger] matched(text)
    &&& forall|text: Seq<u8>| #[trigger] matched(text) ==> text.len() <= longest
}

proof fn lemma_scan_sound(
    pattern: Seq<char>,
    matched: spec_fn(Seq<u8>) -> bool,
    seen: Seq<u8>,
    overlap: int,
    chunk_bytes: int,
    rest: Seq<u8>,
)
    requires
        0 <= overlap,
        matches_texts(pattern, matched, overlap + 1),
        scan_answer(pattern, last_bytes(seen, overlap), overlap, chunk_bytes, rest),
    ensures
        crate::program::regex_matches(pattern, seen + rest),
    decreases rest.len(),
{
    let n = if rest.len() < chunk_bytes {
        rest.len() as int
    } else {
        chunk_bytes
    };
    let carry = last_bytes(seen, overlap);
    let window = carry + rest.take(n);
    let all = seen + rest;
    if crate::program::regex_matches(pattern, window) {
        let text = choose|text: Seq<u8>|
            crate::planner::is_part(text, window) && #[trigger] matched(text);
        let at = choose|at: int| crate::planner::part_at(text, window, at);
        let skipped = seen.len() - carry.len();
        assert(all.subrange(skipped + at, skipped + at + text.len()) =~= window.subrange(
            at,
            at + text.len(),
        ));
        assert(crate::planner::part_at(text, all, skipped + at));
        assert(crate::planner::is_part(text, all));
    } else {
        let more = seen + rest.take(n);
        assert(last_bytes(window, overlap) =~= last_bytes(more, overlap));
        lemma_scan_sound(pattern, matched, more, overlap, chunk_bytes, rest.skip(n));
        assert(more + rest.skip(n) =~= all);
    }
}

proof fn lemma_scan_complete(
    pattern: Seq<char>,
    matched: spec_fn(Seq<u8>) -> bool,
    seen: Seq<u8>,
    overlap: int,
    chunk_bytes: int,
    rest: Seq<u8>,
    start: int,
    end: int,
)
    requires
        0 <= overlap,
        0 < chunk_bytes,
        matches_texts(pattern, matched, overlap + 1),
        0 <= start <= end <= seen.len() + rest.len(),
        seen.len() < end,
        matched((seen + rest).subrange(start, end)),
    ensures
        scan_answer(pattern, last_bytes(seen, overlap), overlap, chunk_bytes, rest),
    decreases rest.len(),
{
    let n = if rest.len() < chunk_bytes {
        rest.len() as int
    } else {
        chunk_bytes
    };
    let all = seen + rest;
    let text = all.subrange(start, end);
    let carry = last_bytes(seen, overlap);
    let window = carry + rest.take(n);
    let more = seen + rest.take(n);
    if end <= more.len() {
        short_stretches_lie_in_windows(seen, rest.take(n), overlap, start, end);
        assert(window =~= last_bytes(more, overlap + n));
        let skipped = more.len() - window.len();
        assert(more.subrange(start, end) =~= text);
        assert(crate::planner::part_at(text, window, start - skipped));
        assert(crate::planner::is_part(text, window));
        assert(crate::program::regex_matches(pattern, window));
    } else {
        assert(last_bytes(window, overlap) =~= last_bytes(more, overlap));
        assert(more + rest.skip(n) =~= all);
        lemma_scan_complete(
            pattern,
            matched,
            more,
            overlap,
            chunk_bytes,
            rest.skip(n),
            start,
            end,
        );
    }
}

/// Searching chunk by chunk answers as searching the whole document does, wherever the chunks
/// end, where no match is longer than the overlap and one byte.
pub proof fn chunked_scans_answer_as_wholes(
    pattern: Seq<char>,
    matched: spec_fn(Seq<u8>) -> bool,
    overlap: int,
    chunk_bytes: int,
    document: Seq<u8>,
)
    requires
        0 <= overlap,
        0 < chunk_bytes,
        matches_texts(pattern, matched, overlap + 1),
    ensures
        scan_answer(pattern, Seq::empty(), overlap, chunk_bytes, document) <==> document.len() > 0
            && crate::program::regex_matches(pattern, document),
{
    let none = Seq::<u8>::empty();
    assert(last_bytes(none, overlap) =~= none);
    assert(none + document =~= document);
    if scan_answer(pattern, none, overlap, chunk_bytes, document) {
        lemma_scan_sound(pattern, matched, none, overlap, chunk_bytes, document);
    }
    if document.len() > 0 && crate::program::regex_matches(pattern, document) {
        let text = choose|text: Seq<u8>|
            crate::planner::is_part(text, document) && #[trigger] matched(text);
        let at = choose|at: int| crate::planner::part_at(text, document, at);
        let (start, end) = if at + text.len() > 0 {
            (at, at + text.len())
        } else {
            (document.len() as int, document.len() as int)
        };
        assert(document.subrange(start, end) =~= text);
        lemma_scan_complete(
            pattern,
            matched,
            none,
            overlap,
            chunk_bytes,
            document,
            start,
            end,
        );
    }
}

/// A pattern whose matches hold no newline can be searched in a document as one: it matches in the
/// document exactly where it matches in a line of it.
pub proof fn documents_match_as_their_lines(
    pattern: Seq<char>,
    matched: spec_fn(Seq<u8>) -> bool,
    longest: int,
    document: Seq<u8>,
)
    requires
        matches_texts(pattern, matched, longest),
        forall|text: Seq<u8>| #[trigger] matched(text) ==> crate::program::one_line(
            text,
            0,
            text.len() as int,
        ),
        document.len() > 0,
    ensures
        crate::program::regex_matches(pattern, document) <==> crate::program::line_matches(
            pattern,
            document,
        ),
{
    if crate::program::regex_matches(pattern, document) {
        let text = choose|text: Seq<u8>|
            crate::planner::is_part(text, document) && #[trigger] matched(text);
        let found = choose|at: int| crate::planner::part_at(text, document, at);
        // An empty text stands anywhere, so also at the first byte.
        let at = if text.len() == 0 {
            0
        } else {
            found
        };
        let from = crate::matches::line_start(document, at);
        let to = crate::program::line_end(document, at);
        lemma_line_around(document, at);
        let line = document.subrange(from, to);
        assert(at + text.len() <= to) by {
            if to < at + text.len() {
                assert(document.subrange(at, at + text.len())[to - at] == document[to]);
                assert(text[to - at] != 10);
            }
        }
        assert(line.subrange(at - from, at - from + text.len()) =~= document.subrange(
            at,
            at + text.len(),
        ));
        assert(document.subrange(at, at + text.len()) =~= text);
        assert(crate::planner::part_at(text, line, at - from));
        assert(crate::planner::is_part(text, line));
        assert(crate::program::is_line(document, from, to));
    }
    if crate::program::line_matches(pattern, document) {
        let (from, to) = choose|from: int, to: int| #[trigger]
            crate::program::is_line(document, from, to) && crate::program::regex_matches(
                pattern,
                document.subrange(from, to),
            );
        let line = document.subrange(from, to);
        let text = choose|text: Seq<u8>|
            crate::planner::is_part(text, line) && #[trigger] matched(text);
        let at = choose|at: int| crate::planner::part_at(text, line, at);
        assert(document.subrange(from + at, from + at + text.len()) =~= line.subrange(
            at,
            at + text.len(),
        ));
        assert(crate::planner::part_at(text, document, from + at));
        assert(crate::planner::is_part(text, document));
    }
}

/// The line that byte `at` is on.
proof fn lemma_line_around(document: Seq<u8>, at: int)
    requires
        0 <= at < document.len(),
    ensures
        ({
            let from = crate::matches::line_start(document, at);
            let to = crate::program::line_end(document, at);
            from <= at <= to && crate::program::is_line(document, from, to)
        }),
{
    crate::program::lemma_line_end(document, at);
    lemma_line_before(document, at);
}

proof fn lemma_line_before(document: Seq<u8>, at: int)
    requires
        0 <= at <= document.len(),
    ensures
        ({
            let from = crate::matches::line_start(document, at);
            &&& 0 <= from <= at
            &&& from == 0 || document[from - 1] == 10
            &&& crate::program::one_line(document, from, at)
        }),
    decreases at,
{
    if at > 0 && document[at - 1] != 10 {
        lemma_line_before(document, at - 1);
    }
}

} // verus!
