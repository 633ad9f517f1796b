//! Searching candidates: which keys are searched, what is made of the matches of a document, and
//! what a search adds up to.

use crate::candidate::CandidateBatchLimits;
use crate::error::IndexError;
use crate::events::{build_count_events, LineEvent};
use crate::fetch::DocumentRegion;
use crate::matches::{find_region_matches, find_whole_matches, FoundMatch, RegionMatch};
use crate::pack::ByteRange;
use crate::program::{find_matches, Program};
use crate::text::starts_with;
use crate::windows::{build_windows, line_groups, window_seed, MatchWindow};
use vstd::prelude::*;

verus! {

pub const SEARCH_CANDIDATE_BATCH: usize = 16384;

pub const INCREMENTAL_CANDIDATE_BATCH: usize = 8;

pub const SEARCH_BATCH_BYTES: u64 = 67108864;

pub const FILE_MATCH_CHUNK: u64 = 1048576;

pub const FILE_MATCH_OVERLAP_MAX: usize = 1048576;

/// Which keys a search looks at: those with the prefix that also satisfy the predicate.
#[derive(Debug)]
pub struct KeyScope<'a, F> {
    pub prefix: Option<&'a str>,
    pub matches: Option<F>,
}

impl<'a, F: Copy> Clone for KeyScope<'a, F> {
    fn clone(&self) -> (copy: KeyScope<'a, F>)
        ensures
            copy == *self,
    {
        *self
    }
}

impl<'a, F: Copy> Copy for KeyScope<'a, F> {

}

impl<'a, F: Fn(&str) -> bool> KeyScope<'a, F> {
    pub open spec fn in_prefix(&self, key: Seq<char>) -> bool {
        match self.prefix {
            Some(prefix) => crate::text::has_prefix(key, prefix@),
            None => true,
        }
    }

    /// The predicate can be asked about any key.
    pub open spec fn answers(&self) -> bool {
        self.matches is Some ==> forall|key: &str| #[trigger]
            call_requires(self.matches->0, (key,))
    }

    /// The scope may say `admitted` of the key.
    pub open spec fn says_of(&self, key: &str, admitted: bool) -> bool {
        if self.in_prefix(key@) {
            match self.matches {
                Some(f) => call_ensures(f, (key,), admitted),
                None => admitted,
            }
        } else {
            !admitted
        }
    }

    /// The scope may say `admitted` of a key with this text.
    pub open spec fn says(&self, text: Seq<char>, admitted: bool) -> bool {
        exists|key: &str| key@ == text && #[trigger] self.says_of(key, admitted)
    }

    /// Whether the scope admits a key.
    pub fn admits(&self, key: &str) -> (admitted: bool)
        requires
            self.matches matches Some(f) ==> call_requires(f, (key,)),
        ensures
            self.says_of(key, admitted),
    {
        if let Some(prefix) = self.prefix {
            if !starts_with(key, prefix) {
                return false;
            }
        }
        match &self.matches {
            Some(matches) => matches(key),
            None => true,
        }
    }
}

/// Whether to go on after a result.
#[derive(Debug, Clone, Copy, PartialEq, Eq, Structural)]
pub enum SinkFlow {
    Continue,
    /// End the search early, and call it a success.
    Stop,
}

/// What is reported of a matching document.
#[derive(Debug, Clone, Copy, PartialEq, Eq, Structural)]
pub enum SearchDetail {
    Documents,
    MatchingLines,
    MatchCount,
    MatchWindows { max_bytes: usize },
    FullLines,
}

/// Takes results and asks for nothing but whether documents match.
#[derive(Debug, Clone, Copy, PartialEq, Eq, Structural)]
pub struct NullSink;

impl NullSink {
    pub fn detail(&self) -> (detail: SearchDetail)
        ensures
            detail == SearchDetail::Documents,
    {
        SearchDetail::Documents
    }

    pub fn on_doc(&self) -> (flow: SinkFlow)
        ensures
            flow == SinkFlow::Continue,
    {
        SinkFlow::Continue
    }
}

/// What a search that was cut off by a new index says.
#[derive(Debug, Clone, Copy, PartialEq, Eq, Structural)]
pub struct IndexChanged;

impl IndexChanged {
    pub fn message(&self) -> (text: &'static str)
        ensures
            text@ == "index changed during search; reopen it and retry"@,
    {
        "index changed during search; reopen it and retry"
    }
}

/// What is known of a document once its matches are found.
#[derive(Debug)]
pub enum Verdict {
    NoMatch,
    Documents,
    Lines(Vec<LineEvent>),
    Windows(Vec<MatchWindow>),
    /// The lines of these matches are wanted.
    LinesOf(Vec<RegionMatch>),
    /// Full lines around these ranges have to be read.
    FetchLines(Vec<ByteRange>),
    /// These ranges have to be read, one for the window of each line.
    FetchWindows { matches: Vec<RegionMatch>, seeds: Vec<ByteRange> },
}

/// The verdict on a whole document with the given matches.
pub open spec fn whole_verdict(
    verdict: Verdict,
    detail: SearchDetail,
    matches: Seq<RegionMatch>,
) -> bool {
    if matches.len() == 0 {
        verdict is NoMatch
    } else {
        match detail {
            SearchDetail::Documents => verdict is Documents,
            SearchDetail::MatchingLines => verdict matches Verdict::Lines(events)
                && crate::events::event_views(events@) == crate::events::count_events(
                matches,
                false,
                matches.len() as int,
            ),
            SearchDetail::MatchCount => verdict matches Verdict::Lines(events)
                && crate::events::event_views(events@) == crate::events::count_events(
                matches,
                true,
                matches.len() as int,
            ),
            SearchDetail::FullLines => verdict matches Verdict::LinesOf(list) && list@ == matches,
            SearchDetail::MatchWindows { .. } => verdict is Windows,
        }
    }
}

/// What is decided of a whole document with the given matches, or which error comes.
pub open spec fn whole_outcome(
    verdict: Result<Verdict, IndexError>,
    bytes: Seq<u8>,
    detail: SearchDetail,
    matches: Seq<RegionMatch>,
) -> bool {
    let starts = crate::windows::group_starts(matches, 0);
    match verdict {
        Ok(verdict) => {
            &&& whole_verdict(verdict, detail, matches)
            &&& matches.len() > 0 && detail is MatchWindows ==> detail->max_bytes > 0
                && crate::windows::first_window_error(
                matches,
                bytes.len() as u64,
                detail->max_bytes as int,
                bytes,
                0,
            ) is None
            &&& verdict matches Verdict::Windows(windows) ==> (
            detail matches SearchDetail::MatchWindows { max_bytes } && windows@.len()
                == starts.len() && forall|g: int|
                0 <= g < windows@.len() ==> crate::windows::window_of(
                    #[trigger] windows@[g],
                    matches,
                    starts[g],
                    crate::windows::group_end(matches, starts[g], starts[g] + 1),
                    bytes.len() as u64,
                    max_bytes as int,
                    0,
                    bytes,
                ))
        },
        Err(e) => matches.len() > 0 && (detail matches SearchDetail::MatchWindows {
            max_bytes,
        } && if max_bytes == 0 {
            e == IndexError::WindowSize
        } else {
            crate::windows::first_window_error(
                matches,
                bytes.len() as u64,
                max_bytes as int,
                bytes,
                0,
            ) == Some(e)
        }),
    }
}

/// Decide on a document that was read whole.
pub fn verify_whole(
    bytes: &[u8],
    found: &[FoundMatch],
    detail: SearchDetail,
    max_count: Option<u64>,
) -> (verdict: Result<Verdict, IndexError>)
    requires
        crate::matches::found_in_order(found@, bytes@.len()),
        bytes@.len() < u64::MAX,
    ensures
        whole_outcome(
            verdict,
            bytes@,
            detail,
            crate::matches::whole_matches(bytes@, found@, max_count),
        ),
{
    let matches = find_whole_matches(bytes, found, max_count);
    if matches.len() == 0 {
        return Ok(Verdict::NoMatch);
    }
    match detail {
        SearchDetail::Documents => Ok(Verdict::Documents),
        SearchDetail::MatchingLines => Ok(
            Verdict::Lines(build_count_events(matches.as_slice(), false)),
        ),
        SearchDetail::MatchCount => Ok(
            Verdict::Lines(build_count_events(matches.as_slice(), true)),
        ),
        SearchDetail::FullLines => Ok(Verdict::LinesOf(matches)),
        SearchDetail::MatchWindows { max_bytes } => {
            match build_windows(matches.as_slice(), bytes.len() as u64, max_bytes, bytes) {
                Ok(windows) => Ok(Verdict::Windows(windows)),
                Err(e) => Err(e),
            }
        },
    }
}

/// Search a document that was read whole for a pattern, line by line.
pub fn search_document(
    program: &Program,
    bytes: &[u8],
    detail: SearchDetail,
    max_count: Option<u64>,
) -> (verdict: Result<Verdict, IndexError>)
    requires
        bytes@.len() < u64::MAX,
    ensures
        whole_outcome(
            verdict,
            bytes@,
            detail,
            crate::matches::whole_matches(
                bytes@,
                crate::program::found_at_spans(crate::program::line_spans(program@, bytes@, 0)),
                max_count,
            ),
        ),
        verdict matches Ok(Verdict::NoMatch) <==> max_count == Some(0u64)
            || !crate::program::line_matches(program@, bytes@),
        crate::program::line_matches(program@, bytes@) ==> crate::program::line_accounted(
            program@,
            bytes@,
        ),
{
    let found = find_matches(program, bytes);
    proof {
        if max_count != Some(0u64) {
            crate::matches::whole_documents_report_their_matches(bytes@, found@, max_count);
            if found@.len() > 0 {
                assert(!crate::matches::behind_last_line(bytes@, found@[0]));
            }
        }
    }
    verify_whole(bytes, found.as_slice(), detail, max_count)
}

/// The range whose lines are read for a match; an empty match still has its line.
pub open spec fn line_read_range(m: RegionMatch) -> ByteRange {
    if m.witness.start == m.witness.end {
        ByteRange { start: m.witness.start, end: (m.witness.start + 1) as u64 }
    } else {
        m.witness
    }
}

/// The verdict on a document read in regions, with the given matches.
pub open spec fn region_verdict(
    verdict: Verdict,
    detail: SearchDetail,
    matches: Seq<RegionMatch>,
    decoded_size: u64,
) -> bool {
    if matches.len() == 0 {
        verdict is NoMatch
    } else {
        match detail {
            SearchDetail::FullLines => verdict matches Verdict::FetchLines(ranges) && ranges@
                == matches.map_values(|m: RegionMatch| line_read_range(m)),
            SearchDetail::MatchWindows { max_bytes } => {
                let starts = crate::windows::group_starts(matches, 0);
                verdict matches Verdict::FetchWindows { matches: list, seeds } && list@ == matches
                    && seeds@.len() == starts.len() && forall|g: int|
                    0 <= g < seeds@.len() ==> crate::windows::seed_of(
                        matches,
                        starts[g],
                        crate::windows::group_end(matches, starts[g], starts[g] + 1),
                        decoded_size,
                        max_bytes as int,
                    ) == Ok::<(int, int), IndexError>(
                        ((#[trigger] seeds@[g]).start as int, seeds@[g].end as int),
                    )
            },
            _ => whole_verdict(verdict, detail, matches),
        }
    }
}

/// Decide on a document that was read in regions.
pub fn verify_regions(
    regions: &[DocumentRegion],
    decoded_size: u64,
    found: &[Vec<FoundMatch>],
    detail: SearchDetail,
    max_count: Option<u64>,
) -> (verdict: Result<Verdict, IndexError>)
    requires
        found@.len() == regions@.len(),
        forall|r: int|
            0 <= r < regions@.len() ==> crate::matches::region_fits(#[trigger] regions@[r])
                && crate::matches::found_in_order(found@[r]@, regions@[r].bytes@.len()),
    ensures
        ({
            let matches = crate::matches::region_matches(
                regions@,
                decoded_size,
                found@,
                max_count,
            );
            let starts = crate::windows::group_starts(matches, 0);
            match verdict {
                Ok(verdict) => region_verdict(verdict, detail, matches, decoded_size) && (
                matches.len() > 0 && detail is MatchWindows ==> detail->max_bytes > 0
                    && crate::windows::first_seed_error(
                    matches,
                    decoded_size,
                    detail->max_bytes as int,
                    0,
                ) is None),
                Err(e) => matches.len() > 0 && (detail matches SearchDetail::MatchWindows {
                    max_bytes,
                } && if max_bytes == 0 {
                    e == IndexError::WindowSize
                } else {
                    crate::windows::first_seed_error(
                        matches,
                        decoded_size,
                        max_bytes as int,
                        0,
                    ) == Some(e)
                }),
            }
        }),
{
    let matches = find_region_matches(regions, decoded_size, found, max_count);
    if matches.len() == 0 {
        return Ok(Verdict::NoMatch);
    }
    match detail {
        SearchDetail::Documents => Ok(Verdict::Documents),
        SearchDetail::MatchingLines => Ok(
            Verdict::Lines(build_count_events(matches.as_slice(), false)),
        ),
        SearchDetail::MatchCount => Ok(
            Verdict::Lines(build_count_events(matches.as_slice(), true)),
        ),
        SearchDetail::FullLines => {
            let ghost starts_in = matches@;
            proof {
                assert forall|i: int| 0 <= i < matches@.len() implies (
                #[trigger] matches@[i]).witness.start < decoded_size by {
                    crate::matches::lemma_region_starts(
                        regions@,
                        decoded_size,
                        found@,
                        max_count,
                        i,
                    );
                }
            }
            let mut ranges: Vec<ByteRange> = Vec::new();
            let mut i: usize = 0;
            while i < matches.len()
                invariant
                    i <= matches.len(),
                    matches@ == starts_in,
                    forall|k: int|
                        0 <= k < matches@.len() ==> (#[trigger] matches@[k]).witness.start
                            < decoded_size,
                    ranges@ == starts_in.take(i as int).map_values(
                        |m: RegionMatch| line_read_range(m),
                    ),
                decreases matches.len() - i,
            {
                let m: RegionMatch = matches[i];
                assert(matches@[i as int].witness.start < decoded_size);
                if m.witness.start == m.witness.end {
                    ranges.push(ByteRange { start: m.witness.start, end: m.witness.start + 1 });
                } else {
                    ranges.push(m.witness);
                }
                assert(ranges@ =~= starts_in.take(i + 1).map_values(
                    |m: RegionMatch| line_read_range(m),
                ));
                i = i + 1;
            }
            assert(starts_in.take(i as int) =~= starts_in);
            Ok(Verdict::FetchLines(ranges))
        },
        SearchDetail::MatchWindows { max_bytes } => {
            if max_bytes == 0 {
                return Err(IndexError::WindowSize);
            }
            let groups = line_groups(matches.as_slice());
            let ghost list = matches@;
            let ghost starts = crate::windows::group_starts(list, 0);
            let mut seeds: Vec<ByteRange> = Vec::new();
            let mut g: usize = 0;
            while g < groups.len()
                invariant
                    g <= groups.len(),
                    max_bytes > 0,
                    matches@ == list,
                    starts == crate::windows::group_starts(list, 0),
                    groups@.len() == starts.len(),
                    forall|k: int|
                        0 <= k < groups@.len() ==> (#[trigger] groups@[k]).0 == starts[k]
                            && groups@[k].1 == crate::windows::group_end(
                            list,
                            groups@[k].0 as int,
                            groups@[k].0 + 1,
                        ) && groups@[k].0 < groups@[k].1 <= list.len(),
                    seeds@.len() == g,
                    forall|k: int|
                        0 <= k < g ==> crate::windows::seed_of(
                            list,
                            starts[k],
                            crate::windows::group_end(list, starts[k], starts[k] + 1),
                            decoded_size,
                            max_bytes as int,
                        ) == Ok::<(int, int), IndexError>(
                            ((#[trigger] seeds@[k]).start as int, seeds@[k].end as int),
                        ),
                    list.len() > 0,
                    list == crate::matches::region_matches(
                        regions@,
                        decoded_size,
                        found@,
                        max_count,
                    ),
                    crate::windows::first_seed_error(list, decoded_size, max_bytes as int, 0)
                        == crate::windows::first_seed_error(
                        list,
                        decoded_size,
                        max_bytes as int,
                        g as int,
                    ),
                    detail == (SearchDetail::MatchWindows { max_bytes }),
                decreases groups.len() - g,
            {
                let (i, end): (usize, usize) = groups[g];
                assert(groups@[g as int].0 == starts[g as int]);
                match window_seed(matches.as_slice(), i, end, decoded_size, max_bytes) {
                    Ok(seed) => seeds.push(seed),
                    Err(e) => return Err(e),
                }
                g = g + 1;
            }
            Ok(Verdict::FetchWindows { matches, seeds })
        },
    }
}

/// Regions give the results of the whole document: the same documents match, with the same lines
/// and counts; full lines and windows are read for the same matches.
pub proof fn regions_decide_as_wholes(
    bytes: Seq<u8>,
    whole: Seq<FoundMatch>,
    regions: Seq<DocumentRegion>,
    found: Seq<Vec<FoundMatch>>,
    detail: SearchDetail,
    max_count: Option<u64>,
    read_whole: Verdict,
    read_regions: Verdict,
)
    requires
        bytes.len() < u64::MAX,
        found.len() == regions.len(),
        forall|r: int|
            0 <= r < regions.len() ==> crate::matches::region_of(bytes, #[trigger] regions[r]),
        forall|r: int, i: int|
            0 <= r < regions.len() && 0 <= i < found[r]@.len() ==> #[trigger]
                crate::matches::finds_in_whole(whole, regions, found, r, i),
        forall|j: int|
            0 <= j < whole.len() ==> crate::matches::found_in_regions(
                bytes,
                #[trigger] whole[j],
                regions,
                found,
            ),
        whole_verdict(
            read_whole,
            detail,
            crate::matches::whole_matches(bytes, whole, max_count),
        ),
        region_verdict(
            read_regions,
            detail,
            crate::matches::region_matches(regions, bytes.len() as u64, found, max_count),
            bytes.len() as u64,
        ),
    ensures
        read_whole is NoMatch <==> read_regions is NoMatch,
        read_whole is Documents <==> read_regions is Documents,
        read_whole matches Verdict::Lines(events) ==> (read_regions matches Verdict::Lines(others)
            && crate::events::event_views(events@) == crate::events::event_views(others@)),
        read_whole matches Verdict::LinesOf(list) ==> (read_regions matches Verdict::FetchLines(
            ranges,
        ) && ranges@ == list@.map_values(|m: RegionMatch| line_read_range(m))),
        read_whole is Windows ==> (read_regions matches Verdict::FetchWindows { matches, .. }
            && matches@ == crate::matches::whole_matches(bytes, whole, max_count)),
{
    crate::matches::regions_match_as_wholes(bytes, whole, regions, found, max_count);
}

/// A region made of whole lines holds the line from `from` to `to`.
pub open spec fn holds_line(region: DocumentRegion, from: int, to: int) -> bool {
    &&& region.start <= from < region.start + region.bytes@.len()
    &&& to <= region.start + region.bytes@.len()
}

/// Every line of a document in which the pattern matches is in one of the regions.
pub open spec fn matches_held(
    pattern: Seq<char>,
    bytes: Seq<u8>,
    regions: Seq<DocumentRegion>,
) -> bool {
    forall|from: int, to: int| #[trigger]
        crate::program::is_line(bytes, from, to) && crate::program::regex_spans(
            pattern,
            bytes.subrange(from, to),
        ).len() > 0 ==> exists|r: int|
            0 <= r < regions.len() && holds_line(#[trigger] regions[r], from, to)
}

/// What was found in region `r` was found in the document.
proof fn lemma_region_in_whole(
    pattern: Seq<char>,
    bytes: Seq<u8>,
    regions: Seq<DocumentRegion>,
    found: Seq<Vec<FoundMatch>>,
    r: int,
    i: int,
)
    requires
        bytes.len() <= usize::MAX,
        crate::program::lines_ordered(pattern, bytes, bytes.len() as int),
        0 <= r < regions.len(),
        crate::matches::region_of(bytes, regions[r]),
        crate::program::whole_lines(
            bytes,
            regions[r].start as int,
            regions[r].start + regions[r].bytes@.len(),
        ),
        found[r]@ == crate::program::found_at_spans(
            crate::program::line_spans(pattern, regions[r].bytes@, 0),
        ),
        0 <= i < found[r]@.len(),
    ensures
        crate::matches::finds_in_whole(
            crate::program::found_at_spans(crate::program::line_spans(pattern, bytes, 0)),
            regions,
            found,
            r,
            i,
        ),
{
    let region = regions[r];
    let start = region.start as int;
    let end = start + region.bytes@.len();
    let part = region.bytes@;
    let whole = crate::program::found_at_spans(crate::program::line_spans(pattern, bytes, 0));
    lemma_region_ordered(pattern, bytes, start, end);
    let (from, to, k) = crate::program::line_spans_are_of_lines(pattern, part, 0, i);
    crate::program::lines_of_whole_lines(bytes, start, end, from, to);
    let j = crate::program::matches_of_lines_are_line_spans(
        pattern,
        bytes,
        0,
        start + from,
        start + to,
        k,
    );
    let spans = crate::program::regex_spans(pattern, part.subrange(from, to));
    assert(spans[k].0 <= spans[k].1 <= to - from);
    assert(crate::matches::found_at(whole[j], region, found[r]@[i]));
}

/// The matches of the lines of whole lines follow one another as those of the document do.
proof fn lemma_region_ordered(pattern: Seq<char>, bytes: Seq<u8>, start: int, end: int)
    requires
        crate::program::lines_ordered(pattern, bytes, bytes.len() as int),
        crate::program::whole_lines(bytes, start, end),
    ensures
        crate::program::lines_ordered(pattern, bytes.subrange(start, end), end - start),
{
    let part = bytes.subrange(start, end);
    assert forall|from: int, to: int| #[trigger]
        crate::program::is_line(part, from, to) && from < end - start
        implies crate::program::spans_ordered(
        crate::program::regex_spans(pattern, part.subrange(from, to)),
        (to - from) as nat,
    ) by {
        crate::program::lines_of_whole_lines(bytes, start, end, from, to);
        assert(crate::program::is_line(bytes, start + from, start + to));
    }
}

/// What was found in the document was found in one of the regions.
proof fn lemma_whole_in_regions(
    pattern: Seq<char>,
    bytes: Seq<u8>,
    regions: Seq<DocumentRegion>,
    found: Seq<Vec<FoundMatch>>,
    j: int,
)
    requires
        bytes.len() <= usize::MAX,
        found.len() == regions.len(),
        crate::program::lines_ordered(pattern, bytes, bytes.len() as int),
        matches_held(pattern, bytes, regions),
        forall|r: int|
            0 <= r < regions.len() ==> {
                let region = #[trigger] regions[r];
                &&& crate::matches::region_of(bytes, region)
                &&& crate::program::whole_lines(
                    bytes,
                    region.start as int,
                    region.start + region.bytes@.len(),
                )
                &&& found[r]@ == crate::program::found_at_spans(
                    crate::program::line_spans(pattern, region.bytes@, 0),
                )
            },
        0 <= j < crate::program::line_spans(pattern, bytes, 0).len(),
        crate::program::line_spans(pattern, bytes, 0)[j].0 < bytes.len(),
    ensures
        crate::matches::found_in_regions(
            bytes,
            crate::program::found_at_spans(crate::program::line_spans(pattern, bytes, 0))[j],
            regions,
            found,
        ),
{
    let whole = crate::program::found_at_spans(crate::program::line_spans(pattern, bytes, 0))[j];
    let (from, to, k) = crate::program::line_spans_are_of_lines(pattern, bytes, 0, j);
    let spans = crate::program::regex_spans(pattern, bytes.subrange(from, to));
    assert(spans[k].0 <= spans[k].1 <= to - from);
    let r = choose|r: int|
        0 <= r < regions.len() && holds_line(#[trigger] regions[r], from, to);
    let region = regions[r];
    let start = region.start as int;
    let end = start + region.bytes@.len();
    lemma_region_ordered(pattern, bytes, start, end);
    crate::program::lines_of_whole_lines(bytes, start, end, from - start, to - start);
    let i = crate::program::matches_of_lines_are_line_spans(
        pattern,
        region.bytes@,
        0,
        from - start,
        to - start,
        k,
    );
    assert(crate::matches::found_at(whole, region, found[r]@[i]));
}

/// Reading only some lines of a document never changes a result: where the regions are made of whole
/// lines and hold every line in which the pattern matches, what is found in them is decided as what is
/// found in the whole document. An empty match behind the last byte of the document is left out, which
/// regions do not report.
pub proof fn line_regions_decide_as_wholes(
    pattern: Seq<char>,
    bytes: Seq<u8>,
    regions: Seq<DocumentRegion>,
    found: Seq<Vec<FoundMatch>>,
    detail: SearchDetail,
    max_count: Option<u64>,
    read_whole: Verdict,
    read_regions: Verdict,
)
    requires
        bytes.len() < u64::MAX,
        bytes.len() <= usize::MAX,
        found.len() == regions.len(),
        crate::program::lines_ordered(pattern, bytes, bytes.len() as int),
        matches_held(pattern, bytes, regions),
        forall|r: int|
            0 <= r < regions.len() ==> {
                let region = #[trigger] regions[r];
                &&& crate::matches::region_of(bytes, region)
                &&& crate::program::whole_lines(
                    bytes,
                    region.start as int,
                    region.start + region.bytes@.len(),
                )
                &&& found[r]@ == crate::program::found_at_spans(
                    crate::program::line_spans(pattern, region.bytes@, 0),
                )
            },
        forall|j: int|
            0 <= j < crate::program::line_spans(pattern, bytes, 0).len() ==> (
            #[trigger] crate::program::line_spans(pattern, bytes, 0)[j]).0 < bytes.len(),
        whole_verdict(
            read_whole,
            detail,
            crate::matches::whole_matches(
                bytes,
                crate::program::found_at_spans(crate::program::line_spans(pattern, bytes, 0)),
                max_count,
            ),
        ),
        region_verdict(
            read_regions,
            detail,
            crate::matches::region_matches(regions, bytes.len() as u64, found, max_count),
            bytes.len() as u64,
        ),
    ensures
        read_whole is NoMatch <==> read_regions is NoMatch,
        read_whole is Documents <==> read_regions is Documents,
        read_whole matches Verdict::Lines(events) ==> (read_regions matches Verdict::Lines(others)
            && crate::events::event_views(events@) == crate::events::event_views(others@)),
        read_whole matches Verdict::LinesOf(list) ==> (read_regions matches Verdict::FetchLines(
            ranges,
        ) && ranges@ == list@.map_values(|m: RegionMatch| line_read_range(m))),
        read_whole is Windows ==> (read_regions matches Verdict::FetchWindows { matches, .. }
            && matches@ == crate::matches::whole_matches(
            bytes,
            crate::program::found_at_spans(crate::program::line_spans(pattern, bytes, 0)),
            max_count,
        )),
{
    let whole = crate::program::found_at_spans(crate::program::line_spans(pattern, bytes, 0));
    assert forall|r: int, i: int|
        0 <= r < regions.len() && 0 <= i < found[r]@.len() implies #[trigger]
        crate::matches::finds_in_whole(whole, regions, found, r, i) by {
        assert(crate::matches::region_of(bytes, regions[r]));
        lemma_region_in_whole(pattern, bytes, regions, found, r, i);
    }
    assert forall|j: int| 0 <= j < whole.len() implies crate::matches::found_in_regions(
        bytes,
        #[trigger] whole[j],
        regions,
        found,
    ) by {
        assert(crate::program::line_spans(pattern, bytes, 0)[j].0 < bytes.len());
        lemma_whole_in_regions(pattern, bytes, regions, found, j);
    }
    assert forall|r: int| 0 <= r < regions.len() implies crate::matches::region_of(
        bytes,
        #[trigger] regions[r],
    ) by {}
    regions_decide_as_wholes(
        bytes,
        whole,
        regions,
        found,
        detail,
        max_count,
        read_whole,
        read_regions,
    );
}

/// How a worker ended.
#[derive(Debug, Clone, Copy, PartialEq, Eq, Structural)]
pub enum WorkerEnd {
    Done,
    /// It stopped because a sink had enough.
    Stopped,
    Failed,
}

/// How a batch ended.
#[derive(Debug, Clone, Copy, PartialEq, Eq, Structural)]
pub enum BatchEnd {
    /// All documents were searched.
    Complete,
    /// A sink had enough.
    Stopped,
    /// Report the error of the feed.
    FeedFailed,
    /// Report the error of verification.
    VerifyFailed,
}

/// A batch fails where verification or, after that, the feed does; a feed that stopped early
/// counts as failed only if nothing asked it to stop.
pub fn batch_end(feed: WorkerEnd, verify: WorkerEnd) -> (end: BatchEnd)
    ensures
        end == match verify {
            WorkerEnd::Failed => BatchEnd::VerifyFailed,
            WorkerEnd::Stopped => if feed == WorkerEnd::Failed {
                BatchEnd::FeedFailed
            } else {
                BatchEnd::Stopped
            },
            WorkerEnd::Done => if feed == WorkerEnd::Done {
                BatchEnd::Complete
            } else {
                BatchEnd::FeedFailed
            },
        },
{
    match verify {
        WorkerEnd::Failed => BatchEnd::VerifyFailed,
        WorkerEnd::Stopped => if feed == WorkerEnd::Failed {
            BatchEnd::FeedFailed
        } else {
            BatchEnd::Stopped
        },
        WorkerEnd::Done => if feed == WorkerEnd::Done {
            BatchEnd::Complete
        } else {
            BatchEnd::FeedFailed
        },
    }
}

/// What the documents of a batch add up to.
#[derive(Debug, Clone, Copy, PartialEq, Eq, Structural)]
pub struct BatchResult {
    pub hit_count: usize,
    pub regional_docs: usize,
    pub whole_docs: usize,
    pub candidate_bytes: usize,
    pub decoded_bytes: usize,
    pub stopped: bool,
}

/// What a search adds up to.
#[derive(Debug, Clone, Copy, PartialEq, Eq, Structural)]
pub struct SearchTotals {
    pub hit_count: usize,
    pub candidates: usize,
    pub bytes_fetched: usize,
    pub regional_docs: usize,
    pub whole_docs: usize,
    pub decoded_bytes: usize,
}

impl SearchTotals {
    pub fn new() -> (totals: SearchTotals)
        ensures
            totals == (SearchTotals {
                hit_count: 0,
                candidates: 0,
                bytes_fetched: 0,
                regional_docs: 0,
                whole_docs: 0,
                decoded_bytes: 0,
            }),
    {
        SearchTotals {
            hit_count: 0,
            candidates: 0,
            bytes_fetched: 0,
            regional_docs: 0,
            whole_docs: 0,
            decoded_bytes: 0,
        }
    }

    /// Count candidates that are about to be searched.
    pub fn add_candidates(&mut self, documents: usize) -> (added: Result<(), IndexError>)
        ensures
            match added {
                Ok(_) => *final(self) == (SearchTotals {
                    candidates: (old(self).candidates + documents) as usize,
                    ..*old(self)
                }) && old(self).candidates + documents <= usize::MAX,
                Err(e) => old(self).candidates + documents > usize::MAX && e
                    == IndexError::CandidateTotal && *final(self) == *old(self),
            },
    {
        match self.candidates.checked_add(documents) {
            Some(sum) => {
                self.candidates = sum;
                Ok(())
            },
            None => Err(IndexError::CandidateTotal),
        }
    }

    /// The first total that a batch overflows.
    pub open spec fn overflow(self, batch: BatchResult) -> Option<IndexError> {
        if self.hit_count + batch.hit_count > usize::MAX {
            Some(IndexError::HitTotal)
        } else if self.bytes_fetched + batch.candidate_bytes > usize::MAX {
            Some(IndexError::FetchedTotal)
        } else if self.regional_docs + batch.regional_docs > usize::MAX {
            Some(IndexError::RegionalTotal)
        } else if self.whole_docs + batch.whole_docs > usize::MAX {
            Some(IndexError::WholeTotal)
        } else if self.decoded_bytes + batch.decoded_bytes > usize::MAX {
            Some(IndexError::DecodedTotal)
        } else {
            None
        }
    }

    /// Add a batch, and say whether to go on.
    pub fn add_batch(&mut self, batch: BatchResult) -> (more: Result<bool, IndexError>)
        ensures
            match more {
                Ok(more) => old(self).overflow(batch) is None && more == !batch.stopped
                    && *final(self) == (SearchTotals {
                    hit_count: (old(self).hit_count + batch.hit_count) as usize,
                    candidates: old(self).candidates,
                    bytes_fetched: (old(self).bytes_fetched + batch.candidate_bytes) as usize,
                    regional_docs: (old(self).regional_docs + batch.regional_docs) as usize,
                    whole_docs: (old(self).whole_docs + batch.whole_docs) as usize,
                    decoded_bytes: (old(self).decoded_bytes + batch.decoded_bytes) as usize,
                }),
                Err(e) => old(self).overflow(batch) == Some(e) && *final(self) == *old(self),
            },
    {
        let hit_count: usize = match self.hit_count.checked_add(batch.hit_count) {
            Some(sum) => sum,
            None => return Err(IndexError::HitTotal),
        };
        let bytes_fetched: usize = match self.bytes_fetched.checked_add(batch.candidate_bytes) {
            Some(sum) => sum,
            None => return Err(IndexError::FetchedTotal),
        };
        let regional_docs: usize = match self.regional_docs.checked_add(batch.regional_docs) {
            Some(sum) => sum,
            None => return Err(IndexError::RegionalTotal),
        };
        let whole_docs: usize = match self.whole_docs.checked_add(batch.whole_docs) {
            Some(sum) => sum,
            None => return Err(IndexError::WholeTotal),
        };
        let decoded_bytes: usize = match self.decoded_bytes.checked_add(batch.decoded_bytes) {
            Some(sum) => sum,
            None => return Err(IndexError::DecodedTotal),
        };
        self.hit_count = hit_count;
        self.bytes_fetched = bytes_fetched;
        self.regional_docs = regional_docs;
        self.whole_docs = whole_docs;
        self.decoded_bytes = decoded_bytes;
        Ok(!batch.stopped)
    }
}

/// How many candidates are searched at once: few where one match is enough.
pub fn candidate_limits(max_count: Option<u64>) -> (limits: CandidateBatchLimits)
    ensures
        max_count == Some(1u64) ==> limits.documents == INCREMENTAL_CANDIDATE_BATCH
            && limits.decoded_bytes == u64::MAX,
        max_count != Some(1u64) ==> limits.documents == SEARCH_CANDIDATE_BATCH
            && limits.decoded_bytes == SEARCH_BATCH_BYTES,
{
    let one: bool = match max_count {
        Some(n) => n == 1,
        None => false,
    };
    if one {
        CandidateBatchLimits { documents: INCREMENTAL_CANDIDATE_BATCH, decoded_bytes: u64::MAX }
    } else {
        CandidateBatchLimits {
            documents: SEARCH_CANDIDATE_BATCH,
            decoded_bytes: SEARCH_BATCH_BYTES,
        }
    }
}

/// What a search knows of a pattern: whether its matches are found in regions exactly, are proved
/// to be there, or need the whole text.
#[derive(Debug, Clone, Copy, PartialEq, Eq, Structural)]
pub enum PatternKind {
    Exact,
    Proof,
    Fallback,
}

/// Patterns of a kind among the first `n`.
pub open spec fn kind_count(kinds: Seq<PatternKind>, kind: PatternKind, n: int) -> nat
    decreases n,
{
    if n <= 0 {
        0
    } else {
        kind_count(kinds, kind, n - 1) + if kinds[n - 1] == kind {
            1nat
        } else {
            0nat
        }
    }
}

/// How many patterns are of a kind.
pub fn count_pattern_kind(kinds: &[PatternKind], kind: PatternKind) -> (count: usize)
    ensures
        count == kind_count(kinds@, kind, kinds@.len() as int),
{
    let mut count: usize = 0;
    let mut i: usize = 0;
    while i < kinds.len()
        invariant
            i <= kinds.len(),
            count <= i,
            count == kind_count(kinds@, kind, i as int),
        decreases kinds.len() - i,
    {
        if kinds[i] == kind {
            count = count + 1;
        }
        i = i + 1;
    }
    count
}

/// A verdict tells what was asked for: whether there is a match, how many matches each matching line
/// has, or only which lines match.
pub proof fn verdicts_tell_what_was_asked(
    verdict: Verdict,
    detail: SearchDetail,
    matches: Seq<RegionMatch>,
)
    requires
        whole_verdict(verdict, detail, matches),
    ensures
        verdict is NoMatch <==> matches.len() == 0,
        matches.len() > 0 && detail is MatchCount ==> (verdict matches Verdict::Lines(events)
            && crate::events::submatch_total(crate::events::event_views(events@))
            == matches.len()),
        matches.len() > 0 && detail is MatchingLines ==> (verdict matches Verdict::Lines(events)
            && forall|e: int|
            0 <= e < events@.len() ==> (#[trigger] events@[e]).submatches@.len() == 1),
        matches.len() > 0 && detail is FullLines ==> (verdict matches Verdict::LinesOf(list) && list@
            == matches),
        matches.len() > 0 && detail is Documents ==> verdict is Documents,
        matches.len() > 0 && detail is MatchWindows ==> verdict is Windows,
{
    let n = matches.len() as int;
    crate::events::counts_are_exact(matches, n);
    crate::events::lemma_lines_count_once(matches, n);
    if let Verdict::Lines(events) = verdict {
        assert forall|e: int| 0 <= e < events@.len() && detail is MatchingLines implies (
        #[trigger] events@[e]).submatches@.len() == 1 by {
            assert(crate::events::event_views(events@)[e] == events@[e]@);
        }
    }
}

/// What is read for a match holds it, and is never empty: for a match of no bytes it is the byte there.
pub proof fn matches_are_read_where_they_are(m: RegionMatch)
    requires
        m.witness.start <= m.witness.end < u64::MAX,
    ensures
        ({
            let range = line_read_range(m);
            &&& range.start == m.witness.start
            &&& range.start < range.end
            &&& m.witness.start < m.witness.end ==> range.end == m.witness.end
            &&& m.witness.start == m.witness.end ==> range.end == m.witness.start + 1
        }),
{
}

/// A reported match is match `i` of the line from `from` up to `to`: in its place, with the line's number
/// and start.
pub open spec fn is_line_match(
    m: RegionMatch,
    pattern: Seq<char>,
    bytes: Seq<u8>,
    from: int,
    to: int,
    i: int,
) -> bool {
    let spans = crate::program::regex_spans(pattern, bytes.subrange(from, to));
    &&& crate::program::is_line(bytes, from, to)
    &&& 0 <= i < spans.len()
    &&& m.witness.start == from + spans[i].0
    &&& m.witness.end == from + spans[i].1
    &&& m.line_offset == from
    &&& m.line == 1 + crate::lines::line_ends(bytes, 0, from)
}

proof fn lemma_line_match(
    m: RegionMatch,
    pattern: Seq<char>,
    bytes: Seq<u8>,
    from: int,
    to: int,
    i: int,
)
    requires
        crate::program::lines_ordered(pattern, bytes, bytes.len() as int),
        crate::program::is_line(bytes, from, to),
        0 <= i < crate::program::regex_spans(pattern, bytes.subrange(from, to)).len(),
        m.witness.start == from + crate::program::regex_spans(pattern, bytes.subrange(from, to))[i].0,
        m.witness.end == from + crate::program::regex_spans(pattern, bytes.subrange(from, to))[i].1,
        m.line == 1 + bytes.subrange(0, m.witness.start as int).to_multiset().count(10),
        m.line_offset <= m.witness.start,
        m.line_offset == 0 || bytes[m.line_offset - 1] == 10,
        forall|p: int| m.line_offset <= p < m.witness.start ==> #[trigger] bytes[p] != 10,
    ensures
        is_line_match(m, pattern, bytes, from, to, i),
{
    let spans = crate::program::regex_spans(pattern, bytes.subrange(from, to));
    let start = m.witness.start as int;
    assert(spans[i].0 <= spans[i].1 <= to - from);
    if m.line_offset < from {
        assert(bytes[from - 1] == 10);
    } else if m.line_offset > from {
        assert(bytes[m.line_offset - 1] != 10);
    }
    crate::lines::newlines_are_counted(bytes, 0, start);
    crate::lines::newlines_are_counted(bytes, 0, from);
    crate::lines::lemma_newline_bytes_split(bytes, 0, from, start);
    lemma_line_has_no_newline(bytes, from, start);
}

proof fn lemma_line_has_no_newline(bytes: Seq<u8>, from: int, to: int)
    requires
        0 <= from <= to <= bytes.len(),
        crate::program::one_line(bytes, from, to),
    ensures
        crate::lines::newline_bytes(bytes, from, to) == 0,
    decreases to - from,
{
    if from < to {
        assert(bytes[to - 1] != 10);
        lemma_line_has_no_newline(bytes, from, to - 1);
    }
}

/// A search reports the matches of the lines of a document and nothing else: each match that the pattern
/// has in a line is reported in its place on that line, and each match reported is one of those.
pub proof fn searches_report_the_matches_of_lines(
    pattern: Seq<char>,
    bytes: Seq<u8>,
    from: int,
    to: int,
    i: int,
    k: int,
)
    requires
        bytes.len() < u64::MAX,
        bytes.len() <= usize::MAX,
        crate::program::lines_ordered(pattern, bytes, bytes.len() as int),
        crate::matches::found_in_order(
            crate::program::found_at_spans(crate::program::line_spans(pattern, bytes, 0)),
            bytes.len(),
        ),
    ensures
        ({
            let reported = crate::matches::whole_matches(
                bytes,
                crate::program::found_at_spans(crate::program::line_spans(pattern, bytes, 0)),
                None,
            );
            &&& crate::program::is_line(bytes, from, to) && 0 <= i < crate::program::regex_spans(
                pattern,
                bytes.subrange(from, to),
            ).len() ==> exists|r: int|
                0 <= r < reported.len() && is_line_match(
                    #[trigger] reported[r],
                    pattern,
                    bytes,
                    from,
                    to,
                    i,
                )
            &&& 0 <= k < reported.len() ==> exists|f: int, t: int, j: int| #[trigger]
                is_line_match(reported[k], pattern, bytes, f, t, j)
        }),
{
    let spans = crate::program::line_spans(pattern, bytes, 0);
    let found = crate::program::found_at_spans(spans);
    let reported = crate::matches::whole_matches(bytes, found, None);
    if crate::program::is_line(bytes, from, to) && 0 <= i < crate::program::regex_spans(
        pattern,
        bytes.subrange(from, to),
    ).len() {
        let own = crate::program::regex_spans(pattern, bytes.subrange(from, to));
        let at = crate::program::matches_of_lines_are_line_spans(pattern, bytes, 0, from, to, i);
        assert(own[i].0 <= own[i].1 <= to - from);
        assert(found[at].start == spans[at].0 && found[at].end == spans[at].1);
        if found[at].start == bytes.len() {
            assert(bytes[to - 1] != 10);
        }
        crate::matches::whole_reports_lie_on_their_lines(bytes, found, at);
        let r = choose|r: int|
            0 <= r < reported.len() && (#[trigger] reported[r]).pattern == found[at].pattern
                && reported[r].witness.start == found[at].start && reported[r].witness.end
                == found[at].end;
        crate::matches::whole_reports_lie_on_their_lines(bytes, found, r);
        lemma_line_match(reported[r], pattern, bytes, from, to, i);
    }
    if 0 <= k < reported.len() {
        crate::matches::whole_reports_lie_on_their_lines(bytes, found, k);
        let m = reported[k];
        let j = choose|j: int|
            0 <= j < found.len() && (#[trigger] found[j]).pattern == m.pattern && found[j].start
                == m.witness.start && found[j].end == m.witness.end;
        let place = crate::program::line_spans_are_of_lines(pattern, bytes, 0, j);
        assert(found[j].start == spans[j].0 && found[j].end == spans[j].1);
        lemma_line_match(m, pattern, bytes, place.0, place.1, place.2);
    }
}

/// Patterns are counted by kind.
pub proof fn kinds_are_counted(kinds: Seq<PatternKind>, kind: PatternKind, n: int)
    requires
        0 <= n <= kinds.len(),
    ensures
        kind_count(kinds, kind, n) == kinds.take(n).to_multiset().count(kind),
    decreases n,
{
    broadcast use vstd::seq_lib::group_to_multiset_ensures;
    broadcast use vstd::multiset::group_multiset_axioms;

    if n > 0 {
        kinds_are_counted(kinds, kind, n - 1);
        assert(kinds.take(n) =~= kinds.take(n - 1).push(kinds[n - 1]));
    } else {
        assert(kinds.take(n) =~= Seq::empty());
        assert(kinds.take(n).to_multiset().len() == 0);
    }
}

} // verus!
