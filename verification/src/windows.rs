//! Match windows: a stretch of a line of limited size around its first match.

use crate::error::IndexError;
use crate::matches::RegionMatch;
use crate::pack::ByteRange;
use vstd::prelude::*;

verus! {

/// A match in a window: where it lies in the document, and which bytes of the window show it.
#[derive(Debug, Clone, Copy, PartialEq, Eq, Structural)]
pub struct WindowMatch {
    pub witness: ByteRange,
    pub visible_start: usize,
    pub visible_end: usize,
    pub left_clipped: bool,
    pub right_clipped: bool,
    pub canonical_span_known: bool,
}

/// Part of a line of a document, from byte `window_offset` on.
#[derive(Debug, PartialEq, Eq)]
pub struct MatchWindow {
    pub line: u64,
    pub line_offset: u64,
    pub window_offset: u64,
    pub text: Vec<u8>,
    pub matches: Vec<WindowMatch>,
    pub left_clipped: bool,
    pub right_clipped: bool,
}

pub open spec fn lesser(a: int, b: int) -> int {
    if a < b {
        a
    } else {
        b
    }
}

pub open spec fn greater(a: int, b: int) -> int {
    if a > b {
        a
    } else {
        b
    }
}

/// Where a window of `max` bytes around a match is cut from a line: as much on the left as on the
/// right, unless the line ends there. A match that is longer is cut at its end.
pub open spec fn clip(
    line_start: int,
    line_end: int,
    witness: ByteRange,
    max: int,
) -> Result<(int, int), IndexError> {
    let len = witness.end - witness.start;
    if max <= 0 {
        Err(IndexError::WindowSize)
    } else if len < 0 {
        Err(IndexError::WindowOverflow)
    } else if len <= max {
        let left = (max - len) / 2;
        let right = max - len - left;
        let start = greater(greater(witness.start - left, 0), line_start);
        let end = lesser(lesser(witness.end + right, u64::MAX as int), line_end);
        if end < start {
            Err(IndexError::WindowOverflow)
        } else if end - start >= max {
            Ok((start, end))
        } else {
            let start2 = if start > line_start {
                start - lesser(max - (end - start), start - line_start)
            } else {
                start
            };
            let end2 = if end - start2 < max && end < line_end {
                end + lesser(max - (end - start2), line_end - end)
            } else {
                end
            };
            Ok((start2, end2))
        }
    } else if witness.start + max > u64::MAX {
        Err(IndexError::WindowOverflow)
    } else {
        Ok((witness.start as int, lesser(witness.start + max, line_end)))
    }
}

/// Where a window around a match is cut from its line.
pub fn window_clip_range(
    line_start: u64,
    line_end: u64,
    witness: &ByteRange,
    max_bytes: usize,
) -> (range: Result<(u64, u64), IndexError>)
    ensures
        match range {
            Ok((start, end)) => clip(
                line_start as int,
                line_end as int,
                *witness,
                max_bytes as int,
            ) == Ok::<(int, int), IndexError>((start as int, end as int)),
            Err(e) => clip(
                line_start as int,
                line_end as int,
                *witness,
                max_bytes as int,
            ) == Err::<(int, int), IndexError>(e),
        },
{
    let max: u64 = max_bytes as u64;
    if max == 0 {
        return Err(IndexError::WindowSize);
    }
    if witness.end < witness.start {
        return Err(IndexError::WindowOverflow);
    }
    let len: u64 = witness.end - witness.start;
    if len <= max {
        let spare: u64 = max - len;
        let left: u64 = spare / 2;
        let right: u64 = spare - left;
        let mut start: u64 = witness.start.saturating_sub(left);
        if start < line_start {
            start = line_start;
        }
        let mut end: u64 = witness.end.saturating_add(right);
        if end > line_end {
            end = line_end;
        }
        if end < start {
            return Err(IndexError::WindowOverflow);
        }
        if end - start < max {
            let extra: u64 = max - (end - start);
            if start > line_start {
                let shift: u64 = if extra < start - line_start { extra } else { start - line_start };
                start = start - shift;
            }
            let used: u64 = end - start;
            if used < max && end < line_end {
                let grow: u64 = if max - used < line_end - end { max - used } else { line_end - end };
                end = end + grow;
            }
        }
        Ok((start, end))
    } else {
        match witness.start.checked_add(max) {
            None => Err(IndexError::WindowOverflow),
            Some(end) => Ok((witness.start, if end < line_end { end } else { line_end })),
        }
    }
}

/// A window lies in its line, is no longer than asked for and as long as the line allows, and
/// shows the whole match where the match fits.
pub proof fn windows_fill_their_budget(
    line_start: int,
    line_end: int,
    witness: ByteRange,
    max: int,
)
    requires
        0 <= line_start <= witness.start <= witness.end <= line_end <= u64::MAX,
        0 < max,
    ensures
        clip(line_start, line_end, witness, max) matches Ok((start, end)) && {
            &&& line_start <= start <= end <= line_end
            &&& end - start <= max
            &&& witness.end - witness.start <= max ==> end - start == lesser(
                max,
                line_end - line_start,
            ) && start <= witness.start && witness.end <= end
            &&& witness.end - witness.start > max ==> start == witness.start && end - start == max
        },
{
}

/// Past the matches that share the line of match `i`.
pub open spec fn group_end(matches: Seq<RegionMatch>, i: int, k: int) -> int
    decreases matches.len() - k,
{
    if k < matches.len() && matches[k].line == matches[i].line {
        group_end(matches, i, k + 1)
    } else {
        k
    }
}

pub open spec fn starts_before(a: ByteRange, b: ByteRange) -> bool {
    a.start < b.start || a.start == b.start && a.end < b.end
}

/// The first match among `i..k` in order of place.
pub open spec fn lowest(matches: Seq<RegionMatch>, i: int, k: int) -> ByteRange
    decreases k - i,
{
    if k <= i + 1 {
        matches[i].witness
    } else {
        let front = lowest(matches, i, k - 1);
        if starts_before(matches[k - 1].witness, front) {
            matches[k - 1].witness
        } else {
            front
        }
    }
}

/// The length of the longest match among `i..k`.
pub open spec fn longest(matches: Seq<RegionMatch>, i: int, k: int) -> int
    decreases k - i,
{
    if k <= i {
        0
    } else {
        greater(
            longest(matches, i, k - 1),
            greater(matches[k - 1].witness.end - matches[k - 1].witness.start, 0),
        )
    }
}

fn find_group_end(matches: &[RegionMatch], i: usize) -> (end: usize)
    requires
        i < matches@.len(),
    ensures
        end == group_end(matches@, i as int, i + 1),
        i < end <= matches@.len(),
{
    let n: usize = matches.len();
    let mut k: usize = i + 1;
    while k < n && matches[k].line == matches[i].line
        invariant
            n == matches@.len(),
            i < k <= n,
            group_end(matches@, i as int, i + 1) == group_end(matches@, i as int, k as int),
        decreases n - k,
    {
        k = k + 1;
    }
    k
}

fn find_lowest(matches: &[RegionMatch], i: usize, end: usize) -> (range: ByteRange)
    requires
        i < end <= matches@.len(),
    ensures
        range == lowest(matches@, i as int, end as int),
{
    let mut range: ByteRange = matches[i].witness;
    let mut k: usize = i + 1;
    while k < end
        invariant
            i < k <= end <= matches@.len(),
            range == lowest(matches@, i as int, k as int),
        decreases end - k,
    {
        let next: ByteRange = matches[k].witness;
        if next.start < range.start || (next.start == range.start && next.end < range.end) {
            range = next;
        }
        k = k + 1;
    }
    range
}

/// The bytes to fetch for the window of a line: enough for a window of `max` bytes on either side
/// of its first match.
pub open spec fn seed_of(
    matches: Seq<RegionMatch>,
    i: int,
    end: int,
    decoded_size: u64,
    max: int,
) -> Result<(int, int), IndexError> {
    let first = lowest(matches, i, end);
    let anchor = lesser(greater(longest(matches, i, end), 1), max);
    if first.start + anchor + max > u64::MAX {
        Err(IndexError::WindowOverflow)
    } else {
        Ok(
            (
                greater(first.start - max, 0),
                lesser(first.start + anchor + max, decoded_size as int),
            ),
        )
    }
}

/// The seed for the window of the line of matches `i..end`.
pub fn window_seed(
    matches: &[RegionMatch],
    i: usize,
    end: usize,
    decoded_size: u64,
    max_bytes: usize,
) -> (seed: Result<ByteRange, IndexError>)
    requires
        i < end <= matches@.len(),
        max_bytes > 0,
    ensures
        match seed {
            Ok(range) => seed_of(matches@, i as int, end as int, decoded_size, max_bytes as int)
                == Ok::<(int, int), IndexError>((range.start as int, range.end as int)),
            Err(e) => seed_of(matches@, i as int, end as int, decoded_size, max_bytes as int)
                == Err::<(int, int), IndexError>(e),
        },
{
    let max: u64 = max_bytes as u64;
    let first: ByteRange = find_lowest(matches, i, end);
    let mut long: u64 = 0;
    let mut k: usize = i;
    while k < end
        invariant
            i <= k <= end <= matches@.len(),
            long == longest(matches@, i as int, k as int),
        decreases end - k,
    {
        let len: u64 = matches[k].witness.end.saturating_sub(matches[k].witness.start);
        if len > long {
            long = len;
        }
        k = k + 1;
    }
    if long < 1 {
        long = 1;
    }
    let anchor: u64 = if long < max { long } else { max };
    let start: u64 = first.start.saturating_sub(max);
    let mut stop: u64 = match first.start.checked_add(anchor) {
        Some(sum) => match sum.checked_add(max) {
            Some(sum) => sum,
            None => return Err(IndexError::WindowOverflow),
        },
        None => return Err(IndexError::WindowOverflow),
    };
    if stop > decoded_size {
        stop = decoded_size;
    }
    Ok(ByteRange { start, end: stop })
}

/// Where the next newline from `p` on is; `bytes.len()` if there is none.
pub open spec fn next_newline(bytes: Seq<u8>, p: int) -> int
    decreases bytes.len() - p,
{
    if p >= bytes.len() || bytes[p] == 10 {
        p
    } else {
        next_newline(bytes, p + 1)
    }
}

/// The end of the line, as far as the source shows it.
pub open spec fn line_end_of(
    offset: int,
    bytes: Seq<u8>,
    line_offset: int,
    decoded_size: int,
) -> int {
    let from = greater(line_offset - offset, 0);
    if from < bytes.len() && next_newline(bytes, from) < bytes.len() {
        offset + next_newline(bytes, from) + 1
    } else {
        decoded_size
    }
}

/// The match shows in the window.
pub open spec fn shows(m: RegionMatch, start: int, end: int) -> bool {
    if m.witness.start == m.witness.end {
        start <= m.witness.start <= end
    } else {
        m.witness.start < end && m.witness.end > start
    }
}

pub open spec fn shown(m: RegionMatch, start: int, end: int) -> WindowMatch {
    WindowMatch {
        witness: m.witness,
        visible_start: lesser(greater(m.witness.start - start, 0), end - start) as usize,
        visible_end: lesser(greater(m.witness.end - start, 0), end - start) as usize,
        left_clipped: m.witness.start < start,
        right_clipped: m.witness.end > end,
        canonical_span_known: m.canonical_span_known,
    }
}

/// The matches `i..k` that show in the window.
pub open spec fn shown_all(matches: Seq<RegionMatch>, i: int, k: int, start: int, end: int) -> Seq<
    WindowMatch,
>
    decreases k - i,
{
    if k <= i {
        Seq::empty()
    } else if shows(matches[k - 1], start, end) {
        shown_all(matches, i, k - 1, start, end).push(shown(matches[k - 1], start, end))
    } else {
        shown_all(matches, i, k - 1, start, end)
    }
}

/// The part of the document that the window of a line shows.
pub open spec fn window_range(
    matches: Seq<RegionMatch>,
    i: int,
    end: int,
    decoded_size: u64,
    max: int,
    offset: int,
    bytes: Seq<u8>,
) -> Result<(int, int), IndexError> {
    let line_offset = matches[i].line_offset as int;
    if offset + bytes.len() > u64::MAX {
        Err(IndexError::WindowOverflow)
    } else {
        match clip(
            line_offset,
            line_end_of(offset, bytes, line_offset, decoded_size as int),
            lowest(matches, i, end),
            max,
        ) {
            Err(e) => Err(e),
            Ok((start, stop)) => {
                let from = greater(start, offset);
                let to = lesser(stop, offset + bytes.len());
                if to < from {
                    Err(IndexError::WindowSource)
                } else {
                    Ok((from, to))
                }
            },
        }
    }
}

/// The window of the line of matches `i..end`.
pub open spec fn window_of(
    window: MatchWindow,
    matches: Seq<RegionMatch>,
    i: int,
    end: int,
    decoded_size: u64,
    max: int,
    offset: int,
    bytes: Seq<u8>,
) -> bool {
    let line_offset = matches[i].line_offset as int;
    let line_end = line_end_of(offset, bytes, line_offset, decoded_size as int);
    window_range(matches, i, end, decoded_size, max, offset, bytes) matches Ok((from, to)) && {
        &&& window.line == matches[i].line
        &&& window.line_offset == line_offset
        &&& window.window_offset == from
        &&& window.text@ == bytes.subrange(from - offset, to - offset)
        &&& window.matches@ == shown_all(matches, i, end, from, to)
        &&& window.left_clipped == (from > line_offset)
        &&& window.right_clipped == (to < line_end)
    }
}

/// Matches `i..end` end where they start or behind that.
pub open spec fn ranges_run(matches: Seq<RegionMatch>, i: int, end: int) -> bool {
    forall|j: int| i <= j < end ==> (#[trigger] matches[j]).witness.start <= matches[j].witness.end
}

/// Cut the window of a line out of the bytes of the document.
#[verifier::rlimit(60)]
pub fn build_window(
    matches: &[RegionMatch],
    i: usize,
    end: usize,
    decoded_size: u64,
    max_bytes: usize,
    offset: u64,
    bytes: &[u8],
) -> (window: Result<MatchWindow, IndexError>)
    requires
        i < end <= matches@.len(),
    ensures
        match window {
            Ok(window) => window_of(
                window,
                matches@,
                i as int,
                end as int,
                decoded_size,
                max_bytes as int,
                offset as int,
                bytes@,
            ) && (ranges_run(matches@, i as int, end as int) ==> shows_truly(
                window,
                matches@,
                i as int,
                end as int,
            )),
            Err(e) => window_range(
                matches@,
                i as int,
                end as int,
                decoded_size,
                max_bytes as int,
                offset as int,
                bytes@,
            ) == Err::<(int, int), IndexError>(e),
        },
{
    let line_offset: u64 = matches[i].line_offset;
    let source_end: u64 = match offset.checked_add(bytes.len() as u64) {
        Some(sum) => sum,
        None => return Err(IndexError::WindowOverflow),
    };
    let from: u64 = line_offset.saturating_sub(offset);
    let mut line_end: u64 = decoded_size;
    if from < bytes.len() as u64 {
        let mut p: usize = from as usize;
        while p < bytes.len() && bytes[p] != 10
            invariant
                p <= bytes.len(),
                next_newline(bytes@, from as int) == next_newline(bytes@, p as int),
            decreases bytes.len() - p,
        {
            p = p + 1;
        }
        if p < bytes.len() {
            line_end = offset + p as u64 + 1;
        }
    }
    let first: ByteRange = find_lowest(matches, i, end);
    let (start, stop): (u64, u64) = match window_clip_range(
        line_offset,
        line_end,
        &first,
        max_bytes,
    ) {
        Ok(range) => range,
        Err(e) => return Err(e),
    };
    let window_offset: u64 = if start > offset { start } else { offset };
    let window_end: u64 = if stop < source_end { stop } else { source_end };
    if window_end < window_offset {
        return Err(IndexError::WindowSource);
    }
    let slice = vstd::slice::slice_subrange(
        bytes,
        (window_offset - offset) as usize,
        (window_end - offset) as usize,
    );
    let mut text: Vec<u8> = Vec::new();
    text.extend_from_slice(slice);
    assert(text@ =~= slice@);
    let size: u64 = window_end - window_offset;
    let mut list: Vec<WindowMatch> = Vec::new();
    let mut k: usize = i;
    while k < end
        invariant
            i <= k <= end <= matches@.len(),
            size == window_end - window_offset,
            size <= usize::MAX,
            list@ == shown_all(
                matches@,
                i as int,
                k as int,
                window_offset as int,
                window_end as int,
            ),
        decreases end - k,
    {
        let m: RegionMatch = matches[k];
        let visible: bool = if m.witness.start == m.witness.end {
            m.witness.start >= window_offset && m.witness.start <= window_end
        } else {
            m.witness.start < window_end && m.witness.end > window_offset
        };
        if visible {
            let mut visible_start: u64 = m.witness.start.saturating_sub(window_offset);
            if visible_start > size {
                visible_start = size;
            }
            let mut visible_end: u64 = m.witness.end.saturating_sub(window_offset);
            if visible_end > size {
                visible_end = size;
            }
            list.push(
                WindowMatch {
                    witness: m.witness,
                    visible_start: visible_start as usize,
                    visible_end: visible_end as usize,
                    left_clipped: m.witness.start < window_offset,
                    right_clipped: m.witness.end > window_end,
                    canonical_span_known: m.canonical_span_known,
                },
            );
        }
        k = k + 1;
    }
    let window = MatchWindow {
        line: matches[i].line,
        line_offset,
        window_offset,
        text,
        matches: list,
        left_clipped: window_offset > line_offset,
        right_clipped: window_end < line_end,
    };
    assert(window.text@ =~= bytes@.subrange(window_offset - offset, window_end - offset));
    assert(window_of(
        window,
        matches@,
        i as int,
        end as int,
        decoded_size,
        max_bytes as int,
        offset as int,
        bytes@,
    ));
    proof {
        if ranges_run(matches@, i as int, end as int) {
            let from = windows_show_matches_in_place(
                window,
                matches@,
                i as int,
                end as int,
                decoded_size,
                max_bytes as int,
                offset as int,
                bytes@,
            );
            assert(shows_truly(window, matches@, i as int, end as int));
        }
    }
    Ok(window)
}

/// Where the groups of matches of one line begin, from match `i` on.
pub open spec fn group_starts(matches: Seq<RegionMatch>, i: int) -> Seq<int>
    decreases matches.len() - i,
{
    if i >= matches.len() || i < 0 {
        Seq::empty()
    } else {
        let end = group_end(matches, i, i + 1);
        if end <= i || end > matches.len() {
            Seq::empty()
        } else {
            seq![i] + group_starts(matches, end)
        }
    }
}

/// The lines of the matches, as ranges of matches.
pub fn line_groups(matches: &[RegionMatch]) -> (groups: Vec<(usize, usize)>)
    ensures
        groups@.len() == group_starts(matches@, 0).len(),
        forall|g: int|
            0 <= g < groups@.len() ==> (#[trigger] groups@[g]).0 == group_starts(matches@, 0)[g]
                && groups@[g].1 == group_end(matches@, groups@[g].0 as int, groups@[g].0 + 1)
                && groups@[g].0 < groups@[g].1 <= matches@.len(),
        lines_grouped(matches@, groups@),
{
    let mut groups: Vec<(usize, usize)> = Vec::new();
    let mut i: usize = 0;
    let ghost all = group_starts(matches@, 0);
    while i < matches.len()
        invariant
            i <= matches.len(),
            all == group_starts(matches@, 0),
            groups@.len() + group_starts(matches@, i as int).len() == all.len(),
            all.skip(groups@.len() as int) == group_starts(matches@, i as int),
            forall|g: int|
                0 <= g < groups@.len() ==> (#[trigger] groups@[g]).0 == all[g] && groups@[g].1
                    == group_end(matches@, groups@[g].0 as int, groups@[g].0 + 1) && groups@[g].0
                    < groups@[g].1 <= matches@.len(),
        decreases matches.len() - i,
    {
        let end: usize = find_group_end(matches, i);
        let ghost n = groups@.len() as int;
        proof {
            let tail = group_starts(matches@, i as int);
            assert(tail == seq![i as int] + group_starts(matches@, end as int));
            assert(all.skip(n)[0] == all[n]);
            assert(all.skip(n + 1) =~= all.skip(n).skip(1));
            assert(tail.skip(1) =~= group_starts(matches@, end as int));
        }
        groups.push((i, end));
        i = end;
    }
    proof {
        windows_go_line_by_line(matches@, groups@);
    }
    groups
}

/// What is wrong with the first window, from line `g` on, that cannot be cut out of a whole
/// document.
pub open spec fn first_window_error(
    matches: Seq<RegionMatch>,
    decoded_size: u64,
    max: int,
    whole: Seq<u8>,
    g: int,
) -> Option<IndexError>
    decreases group_starts(matches, 0).len() - g,
{
    let starts = group_starts(matches, 0);
    if g >= starts.len() {
        None
    } else {
        match window_range(
            matches,
            starts[g],
            group_end(matches, starts[g], starts[g] + 1),
            decoded_size,
            max,
            0,
            whole,
        ) {
            Err(e) => Some(e),
            Ok(_) => first_window_error(matches, decoded_size, max, whole, g + 1),
        }
    }
}

/// What is wrong with the first seed, from line `g` on, that cannot be told.
pub open spec fn first_seed_error(
    matches: Seq<RegionMatch>,
    decoded_size: u64,
    max: int,
    g: int,
) -> Option<IndexError>
    decreases group_starts(matches, 0).len() - g,
{
    let starts = group_starts(matches, 0);
    if g >= starts.len() {
        None
    } else {
        match seed_of(
            matches,
            starts[g],
            group_end(matches, starts[g], starts[g] + 1),
            decoded_size,
            max,
        ) {
            Err(e) => Some(e),
            Ok(_) => first_seed_error(matches, decoded_size, max, g + 1),
        }
    }
}

/// Windows for the lines of matches, all cut out of one whole document.
pub fn build_windows(
    matches: &[RegionMatch],
    decoded_size: u64,
    max_bytes: usize,
    whole: &[u8],
) -> (windows: Result<Vec<MatchWindow>, IndexError>)
    ensures
        ({
            let starts = group_starts(matches@, 0);
            match windows {
                Ok(list) => max_bytes > 0 && whole@.len() == decoded_size && first_window_error(
                    matches@,
                    decoded_size,
                    max_bytes as int,
                    whole@,
                    0,
                ) is None && list@.len() == starts.len() && forall|g: int|
                    0 <= g < list@.len() ==> window_of(
                        #[trigger] list@[g],
                        matches@,
                        starts[g],
                        group_end(matches@, starts[g], starts[g] + 1),
                        decoded_size,
                        max_bytes as int,
                        0,
                        whole@,
                    ),
                Err(e) => {
                    ||| max_bytes == 0 && e == IndexError::WindowSize
                    ||| max_bytes > 0 && whole@.len() != decoded_size && e
                        == IndexError::DocumentLength { bytes: whole@.len() as u64, decoded_size }
                    ||| max_bytes > 0 && whole@.len() == decoded_size && first_window_error(
                        matches@,
                        decoded_size,
                        max_bytes as int,
                        whole@,
                        0,
                    ) == Some(e)
                },
            }
        }),
{
    if max_bytes == 0 {
        return Err(IndexError::WindowSize);
    }
    if whole.len() as u64 != decoded_size {
        return Err(IndexError::DocumentLength { bytes: whole.len() as u64, decoded_size });
    }
    let groups = line_groups(matches);
    let ghost starts = group_starts(matches@, 0);
    let mut windows: Vec<MatchWindow> = Vec::new();
    let mut g: usize = 0;
    while g < groups.len()
        invariant
            g <= groups.len(),
            max_bytes > 0,
            whole@.len() == decoded_size,
            starts == group_starts(matches@, 0),
            groups@.len() == starts.len(),
            forall|k: int|
                0 <= k < groups@.len() ==> (#[trigger] groups@[k]).0 == starts[k] && groups@[k].1
                    == group_end(matches@, groups@[k].0 as int, groups@[k].0 + 1) && groups@[k].0
                    < groups@[k].1 <= matches@.len(),
            first_window_error(matches@, decoded_size, max_bytes as int, whole@, 0)
                == first_window_error(
                matches@,
                decoded_size,
                max_bytes as int,
                whole@,
                g as int,
            ),
            windows@.len() == g,
            forall|k: int|
                0 <= k < g ==> window_of(
                    #[trigger] windows@[k],
                    matches@,
                    starts[k],
                    group_end(matches@, starts[k], starts[k] + 1),
                    decoded_size,
                    max_bytes as int,
                    0,
                    whole@,
                ),
        decreases groups.len() - g,
    {
        let (i, end): (usize, usize) = groups[g];
        assert(groups@[g as int].0 == starts[g as int]);
        match build_window(matches, i, end, decoded_size, max_bytes, 0, whole) {
            Ok(window) => windows.push(window),
            Err(e) => return Err(e),
        }
        g = g + 1;
    }
    Ok(windows)
}

proof fn lemma_next_newline(bytes: Seq<u8>, p: int)
    requires
        0 <= p <= bytes.len(),
    ensures
        p <= next_newline(bytes, p) <= bytes.len(),
    decreases bytes.len() - p,
{
    if p < bytes.len() && bytes[p] != 10 {
        lemma_next_newline(bytes, p + 1);
    }
}

/// The next newline is past the rest of the line before `q`.
proof fn lemma_newline_past(bytes: Seq<u8>, p: int, q: int)
    requires
        0 <= p <= q <= bytes.len(),
        forall|k: int| p <= k < q ==> #[trigger] bytes[k] != 10,
    ensures
        next_newline(bytes, p) == next_newline(bytes, q),
    decreases q - p,
{
    if p < q {
        assert(bytes[p] != 10);
        lemma_newline_past(bytes, p + 1, q);
    }
}

/// A part of the bytes shows the next newline, or shows that it comes later.
proof fn lemma_newline_in_part(bytes: Seq<u8>, at: int, to: int, p: int)
    requires
        0 <= at <= to <= bytes.len(),
        0 <= p <= to - at,
    ensures
        ({
            let part = bytes.subrange(at, to);
            if next_newline(part, p) < part.len() {
                next_newline(bytes, at + p) == at + next_newline(part, p)
            } else {
                next_newline(bytes, at + p) >= to
            }
        }),
    decreases to - at - p,
{
    let part = bytes.subrange(at, to);
    if p < part.len() {
        assert(part[p] == bytes[at + p]);
        if part[p] != 10 {
            lemma_newline_in_part(bytes, at, to, p + 1);
        }
    } else {
        lemma_next_newline(bytes, at + p);
    }
}

/// No newline stands between the start of a line and a byte of it.
proof fn lemma_line_is_whole(bytes: Seq<u8>, p: int)
    requires
        0 <= p <= bytes.len(),
    ensures
        0 <= crate::matches::line_start(bytes, p) <= p,
        forall|k: int|
            crate::matches::line_start(bytes, p) <= k < p ==> #[trigger] bytes[k] != 10,
    decreases p,
{
    if p > 0 && bytes[p - 1] != 10 {
        lemma_line_is_whole(bytes, p - 1);
    }
}

/// A window is cut alike where the line goes on past all that is read for it.
proof fn lemma_clip_near(
    line: int,
    near: int,
    far: int,
    first: ByteRange,
    max: int,
    at: int,
    to: int,
)
    requires
        0 < max,
        0 <= line <= first.start <= first.end,
        first.start <= near <= u64::MAX,
        first.start <= far <= u64::MAX,
        at == greater(first.start - max, 0),
        first.start <= to,
        far <= to ==> near == far,
        far > to ==> near > to && to > first.start + max,
    ensures
        clip(line, near, first, max) == clip(line, far, first, max),
        clip(line, far, first, max) matches Ok((start, stop)) ==> at <= start && stop <= to && (stop
            < near <==> stop < far),
{
}

/// A part of the document shows the end of a line, or that the line goes on.
proof fn lemma_line_ends(bytes: Seq<u8>, p: int, at: int, to: int)
    requires
        0 <= at <= p <= to <= bytes.len(),
    ensures
        ({
            let line = crate::matches::line_start(bytes, p);
            let size = bytes.len() as int;
            let near = line_end_of(at, bytes.subrange(at, to), line, size);
            let far = line_end_of(0, bytes, line, size);
            &&& p <= far <= size && p <= near <= size
            &&& far <= to ==> near == far
            &&& far > to ==> near > to
        }),
{
    let part = bytes.subrange(at, to);
    lemma_line_is_whole(bytes, p);
    let line = crate::matches::line_start(bytes, p);
    let from = greater(line - at, 0);
    lemma_newline_past(bytes, line, p);
    lemma_newline_past(bytes, at + from, p);
    lemma_newline_in_part(bytes, at, to, from);
    lemma_next_newline(bytes, p);
    lemma_next_newline(part, from);
}

/// The seed of a line holds all that its window shows: cut out of these bytes alone, the window
/// is the one that is cut out of the whole document.
#[verifier::rlimit(60)]
pub proof fn seeds_hold_their_windows(
    window: MatchWindow,
    bytes: Seq<u8>,
    matches: Seq<RegionMatch>,
    i: int,
    end: int,
    max: int,
    seed: (int, int),
)
    requires
        0 < max,
        bytes.len() <= u64::MAX,
        lowest(matches, i, end).start <= lowest(matches, i, end).end,
        lowest(matches, i, end).start <= bytes.len(),
        matches[i].line_offset == crate::matches::line_start(
            bytes,
            lowest(matches, i, end).start as int,
        ),
        seed_of(matches, i, end, bytes.len() as u64, max) == Ok::<(int, int), IndexError>(seed),
    ensures
        0 <= seed.0 <= seed.1 <= bytes.len(),
        window_of(
            window,
            matches,
            i,
            end,
            bytes.len() as u64,
            max,
            seed.0,
            bytes.subrange(seed.0, seed.1),
        ) <==> window_of(window, matches, i, end, bytes.len() as u64, max, 0, bytes),
{
    let first = lowest(matches, i, end);
    let p = first.start as int;
    let size = bytes.len() as int;
    let (at, to) = seed;
    let part = bytes.subrange(at, to);
    let line = matches[i].line_offset as int;
    lemma_line_is_whole(bytes, p);
    lemma_line_ends(bytes, p, at, to);
    let near = line_end_of(at, part, line, size);
    let far = line_end_of(0, bytes, line, size);
    lemma_clip_near(line, near, far, first, max, at, to);
    let far_range = window_range(matches, i, end, size as u64, max, 0, bytes);
    let near_range = window_range(matches, i, end, size as u64, max, at, part);
    let cut = clip(line, far, first, max);
    assert(at + part.len() == to);
    assert(far_range == cut);
    assert(near_range == cut);
    if let Ok((start, stop)) = cut {
        if start <= stop {
            assert(part.subrange(start - at, stop - at) =~= bytes.subrange(start, stop));
        }
    }
}

/// A match is shown in a window from `start` to `stop` where it lies: `start` and the place in the
/// window make up the place in the document, cut off where the window ends.
pub open spec fn shown_in_place(shown: WindowMatch, m: RegionMatch, start: int, stop: int) -> bool {
    &&& shown.witness == m.witness
    &&& shown.canonical_span_known == m.canonical_span_known
    &&& start + shown.visible_start == if m.witness.start < start {
        start
    } else {
        m.witness.start as int
    }
    &&& start + shown.visible_end == if m.witness.end > stop {
        stop
    } else {
        m.witness.end as int
    }
    &&& shown.left_clipped <==> m.witness.start < start
    &&& shown.right_clipped <==> m.witness.end > stop
}

/// A match starts before the window ends and ends behind its start, or is empty and stands in it or at
/// its end.
pub open spec fn reaches_window(m: RegionMatch, start: int, stop: int) -> bool {
    if m.witness.start == m.witness.end {
        start <= m.witness.start && m.witness.end <= stop
    } else {
        m.witness.start < stop && start < m.witness.end
    }
}

/// The window shows, in their order and in their places, exactly those of matches `i..end` that reach
/// it; `from` tells which.
pub open spec fn shows_matches(
    window: MatchWindow,
    matches: Seq<RegionMatch>,
    i: int,
    end: int,
    from: Seq<int>,
) -> bool {
    let start = window.window_offset as int;
    let stop = start + window.text@.len();
    &&& from.len() == window.matches@.len()
    &&& forall|k: int|
        0 <= k < from.len() ==> i <= #[trigger] from[k] < end && shown_in_place(
            window.matches@[k],
            matches[from[k]],
            start,
            stop,
        )
    &&& forall|a: int, b: int| 0 <= a < b < from.len() ==> #[trigger] from[a] < #[trigger] from[b]
    &&& forall|j: int|
        i <= j < end ==> (from.contains(j) <==> reaches_window(#[trigger] matches[j], start, stop))
}

/// The window shows those of matches `i..end` that reach it, in their order and in their places.
pub open spec fn shows_truly(
    window: MatchWindow,
    matches: Seq<RegionMatch>,
    i: int,
    end: int,
) -> bool {
    exists|from: Seq<int>| #[trigger] shows_matches(window, matches, i, end, from)
}

/// Which matches are shown.
proof fn lemma_shown_from(matches: Seq<RegionMatch>, i: int, k: int, start: int, stop: int) -> (from:
    Seq<int>)
    requires
        0 <= start <= stop,
        stop - start <= usize::MAX,
        forall|j: int|
            i <= j < k ==> (#[trigger] matches[j]).witness.start <= matches[j].witness.end,
    ensures
        ({
            let list = shown_all(matches, i, k, start, stop);
            &&& from.len() == list.len()
            &&& forall|n: int|
                0 <= n < from.len() ==> i <= #[trigger] from[n] < k && shown_in_place(
                    list[n],
                    matches[from[n]],
                    start,
                    stop,
                )
            &&& forall|a: int, b: int|
                0 <= a < b < from.len() ==> #[trigger] from[a] < #[trigger] from[b]
            &&& forall|j: int|
                i <= j < k ==> (from.contains(j) <==> reaches_window(
                    #[trigger] matches[j],
                    start,
                    stop,
                ))
        }),
    decreases k - i,
{
    if k <= i {
        Seq::empty()
    } else {
        let front = lemma_shown_from(matches, i, k - 1, start, stop);
        let m = matches[k - 1];
        assert(m.witness.start <= m.witness.end);
        if shows(m, start, stop) {
            let from = front.push(k - 1);
            assert forall|j: int| i <= j < k implies (from.contains(j) <==> reaches_window(
                #[trigger] matches[j],
                start,
                stop,
            )) by {
                if j == k - 1 {
                    assert(from[front.len() as int] == j);
                } else {
                    if front.contains(j) {
                        let n = choose|n: int| 0 <= n < front.len() && front[n] == j;
                        assert(from[n] == j);
                    }
                    if from.contains(j) {
                        let n = choose|n: int| 0 <= n < from.len() && from[n] == j;
                        assert(front[n] == j);
                    }
                }
            }
            from
        } else {
            assert forall|j: int| i <= j < k implies (front.contains(j) <==> reaches_window(
                #[trigger] matches[j],
                start,
                stop,
            )) by {
                if front.contains(k - 1) {
                    let n = choose|n: int| 0 <= n < front.len() && front[n] == k - 1;
                    assert(front[n] < k - 1);
                }
            }
            front
        }
    }
}

/// A window shows its matches where they lie in the document: of each the bytes that the window holds,
/// counted from the start of the window; and its text is the document's from there on.
pub proof fn windows_show_matches_in_place(
    window: MatchWindow,
    matches: Seq<RegionMatch>,
    i: int,
    end: int,
    decoded_size: u64,
    max: int,
    offset: int,
    bytes: Seq<u8>,
) -> (from: Seq<int>)
    requires
        0 <= offset,
        window_of(window, matches, i, end, decoded_size, max, offset, bytes),
        forall|j: int|
            i <= j < end ==> (#[trigger] matches[j]).witness.start <= matches[j].witness.end,
    ensures
        shows_matches(window, matches, i, end, from),
        offset <= window.window_offset,
        window.window_offset + window.text@.len() <= offset + bytes.len(),
        forall|p: int|
            0 <= p < window.text@.len() ==> #[trigger] window.text@[p] == bytes[window.window_offset
                - offset + p],
{
    let start = window.window_offset as int;
    let stop = start + window.text@.len();
    assert(window.text.len() == window.text@.len());
    let from = lemma_shown_from(matches, i, end, start, stop);
    assert(window.matches@ == shown_all(matches, i, end, start, stop));
    from
}

/// The bytes of a match that lies in the window whole are the bytes that the window shows for it.
pub proof fn windows_spell_their_matches(
    window: MatchWindow,
    matches: Seq<RegionMatch>,
    i: int,
    end: int,
    max: int,
    bytes: Seq<u8>,
    k: int,
)
    requires
        bytes.len() <= u64::MAX,
        window_of(window, matches, i, end, bytes.len() as u64, max, 0, bytes),
        forall|j: int|
            i <= j < end ==> (#[trigger] matches[j]).witness.start <= matches[j].witness.end,
        0 <= k < window.matches@.len(),
        !window.matches@[k].left_clipped,
        !window.matches@[k].right_clipped,
    ensures
        window.text@.subrange(
            window.matches@[k].visible_start as int,
            window.matches@[k].visible_end as int,
        ) == bytes.subrange(
            window.matches@[k].witness.start as int,
            window.matches@[k].witness.end as int,
        ),
{
    let from = windows_show_matches_in_place(
        window,
        matches,
        i,
        end,
        bytes.len() as u64,
        max,
        0,
        bytes,
    );
    let shown = window.matches@[k];
    let j = from[k];
    assert(matches[j].witness.start <= matches[j].witness.end);
    assert(window.text@.subrange(shown.visible_start as int, shown.visible_end as int)
        =~= bytes.subrange(shown.witness.start as int, shown.witness.end as int));
}

/// Bytes `from..to` are a line with the newline that may end it.
pub open spec fn is_full_line(bytes: Seq<u8>, from: int, to: int) -> bool {
    &&& 0 <= from <= to <= bytes.len()
    &&& from == 0 || bytes[from - 1] == 10
    &&& to == bytes.len() || to > from && bytes[to - 1] == 10
    &&& forall|p: int| from <= p < to - 1 ==> #[trigger] bytes[p] != 10
}

proof fn lemma_newline_found(bytes: Seq<u8>, p: int)
    requires
        0 <= p <= bytes.len(),
    ensures
        ({
            let q = next_newline(bytes, p);
            &&& p <= q <= bytes.len()
            &&& q < bytes.len() ==> bytes[q] == 10
            &&& forall|k: int| p <= k < q ==> #[trigger] bytes[k] != 10
        }),
    decreases bytes.len() - p,
{
    if p < bytes.len() && bytes[p] != 10 {
        lemma_newline_found(bytes, p + 1);
    }
}

/// The first of several matches by place.
proof fn lemma_lowest_is_first(matches: Seq<RegionMatch>, i: int, k: int) -> (first: int)
    requires
        i < k,
    ensures
        i <= first < k,
        lowest(matches, i, k) == matches[first].witness,
        forall|j: int|
            i <= j < k ==> matches[first].witness.start < (#[trigger] matches[j]).witness.start
                || matches[first].witness.start == matches[j].witness.start
                && matches[first].witness.end <= matches[j].witness.end,
    decreases k - i,
{
    if k <= i + 1 {
        i
    } else {
        let front = lemma_lowest_is_first(matches, i, k - 1);
        if starts_before(matches[k - 1].witness, matches[front].witness) {
            k - 1
        } else {
            front
        }
    }
}

/// A window is part of the line of its matches and shows the first of them by place: the whole of it,
/// with as much of the line as was asked for, where it fits, and otherwise as much of it as was asked
/// for. It says truly whether the line goes on at either side.
pub proof fn windows_show_their_lines(
    window: MatchWindow,
    matches: Seq<RegionMatch>,
    i: int,
    end: int,
    max: int,
    bytes: Seq<u8>,
) -> (found: (int, int))
    requires
        0 <= i < end <= matches.len(),
        bytes.len() <= u64::MAX,
        0 < max,
        window_of(window, matches, i, end, bytes.len() as u64, max, 0, bytes),
        forall|j: int|
            i <= j < end ==> (#[trigger] matches[j]).witness.start <= matches[j].witness.end
                && matches[j].line_offset == matches[i].line_offset && matches[j].line_offset
                == crate::matches::line_start(bytes, matches[j].witness.start as int)
                && matches[j].witness.start <= bytes.len(),
    ensures
        ({
            let (first, stop) = found;
            let m = matches[first].witness;
            let from = window.line_offset as int;
            let start = window.window_offset as int;
            let len = window.text@.len();
            &&& i <= first < end
            &&& forall|j: int|
                i <= j < end ==> m.start < (#[trigger] matches[j]).witness.start || m.start
                    == matches[j].witness.start && m.end <= matches[j].witness.end
            &&& window.line == matches[i].line
            &&& is_full_line(bytes, from, stop)
            &&& from <= m.start <= stop
            &&& from <= start && start + len <= stop
            &&& m.end <= stop ==> if m.end - m.start <= max {
                &&& start <= m.start && m.end <= start + len
                &&& len == if max < stop - from {
                    max
                } else {
                    stop - from
                }
            } else {
                start == m.start && len == max
            }
            &&& window.left_clipped <==> start > from
            &&& window.right_clipped <==> start + len < stop
        }),
{
    let size = bytes.len() as int;
    let first = lemma_lowest_is_first(matches, i, end);
    let m = matches[first].witness;
    let p = m.start as int;
    let line = matches[i].line_offset as int;
    lemma_line_is_whole(bytes, p);
    crate::lines::lines_start_behind_newlines(bytes, p);
    lemma_newline_past(bytes, line, p);
    lemma_newline_found(bytes, line);
    let stop = line_end_of(0, bytes, line, size);
    assert(window.text.len() == window.text@.len());
    if m.end <= stop {
        windows_fill_their_budget(line, stop, m, max);
    }
    (first, stop)
}

/// The groups follow one another from the first match to the last, each holds matches of one line, and
/// the line changes from one to the next.
pub open spec fn lines_grouped(matches: Seq<RegionMatch>, groups: Seq<(usize, usize)>) -> bool {
    &&& matches.len() > 0 <==> groups.len() > 0
    &&& groups.len() > 0 ==> groups[0].0 == 0 && groups.last().1 == matches.len()
    &&& forall|g: int|
        0 <= g < groups.len() - 1 ==> (#[trigger] groups[g]).1 == groups[g + 1].0
            && matches[groups[g].1 - 1].line != matches[groups[g].1 as int].line
    &&& forall|g: int, k: int|
        0 <= g < groups.len() && groups[g].0 <= k < groups[g].1 ==> (#[trigger] matches[k]).line
            == matches[(#[trigger] groups[g]).0 as int].line
}

proof fn lemma_group_end(matches: Seq<RegionMatch>, i: int, k: int)
    requires
        0 <= i < k <= matches.len(),
        forall|j: int| i <= j < k ==> (#[trigger] matches[j]).line == matches[i].line,
    ensures
        ({
            let end = group_end(matches, i, k);
            &&& k <= end <= matches.len()
            &&& forall|j: int| i <= j < end ==> (#[trigger] matches[j]).line == matches[i].line
            &&& end < matches.len() ==> matches[end].line != matches[i].line
        }),
    decreases matches.len() - k,
{
    if k < matches.len() && matches[k].line == matches[i].line {
        lemma_group_end(matches, i, k + 1);
    }
}

proof fn lemma_group_starts(matches: Seq<RegionMatch>, i: int)
    requires
        0 <= i <= matches.len(),
    ensures
        ({
            let starts = group_starts(matches, i);
            &&& i < matches.len() <==> starts.len() > 0
            &&& starts.len() > 0 ==> starts[0] == i
            &&& forall|g: int|
                0 <= g < starts.len() ==> i <= #[trigger] starts[g] < matches.len() && group_end(
                    matches,
                    starts[g],
                    starts[g] + 1,
                ) == if g + 1 < starts.len() {
                    starts[g + 1]
                } else {
                    matches.len() as int
                }
        }),
    decreases matches.len() - i,
{
    if i < matches.len() {
        lemma_group_end(matches, i, i + 1);
        let end = group_end(matches, i, i + 1);
        lemma_group_starts(matches, end);
        let starts = group_starts(matches, i);
        let rest = group_starts(matches, end);
        assert(starts =~= seq![i] + rest);
        assert forall|g: int| 0 <= g < starts.len() implies i <= #[trigger] starts[g]
            < matches.len() && group_end(matches, starts[g], starts[g] + 1) == if g + 1
            < starts.len() {
            starts[g + 1]
        } else {
            matches.len() as int
        } by {
            if g > 0 {
                assert(starts[g] == rest[g - 1]);
                if g + 1 < starts.len() {
                    assert(starts[g + 1] == rest[g]);
                }
            } else if starts.len() > 1 {
                assert(starts[1] == rest[0]);
            }
        }
    }
}

/// Matches are shown line by line: the groups of matches that windows are built from follow one another,
/// none is left out, and each holds the matches of one line.
pub proof fn windows_go_line_by_line(matches: Seq<RegionMatch>, groups: Seq<(usize, usize)>)
    requires
        matches.len() <= usize::MAX,
        groups.len() == group_starts(matches, 0).len(),
        forall|g: int|
            0 <= g < groups.len() ==> (#[trigger] groups[g]).0 == group_starts(matches, 0)[g]
                && groups[g].1 == group_end(matches, groups[g].0 as int, groups[g].0 + 1),
    ensures
        lines_grouped(matches, groups),
{
    lemma_group_starts(matches, 0);
    let starts = group_starts(matches, 0);
    assert forall|g: int, k: int|
        0 <= g < groups.len() && groups[g].0 <= k < groups[g].1 implies (#[trigger] matches[k]).line
        == matches[(#[trigger] groups[g]).0 as int].line by {
        assert(starts[g] < matches.len());
        lemma_group_end(matches, starts[g], starts[g] + 1);
    }
    assert forall|g: int| 0 <= g < groups.len() - 1 implies (#[trigger] groups[g]).1 == groups[g
        + 1].0 && matches[groups[g].1 - 1].line != matches[groups[g].1 as int].line by {
        assert(starts[g + 1] < matches.len());
        assert(starts[g] < matches.len());
        lemma_group_end(matches, starts[g], starts[g] + 1);
        assert(matches[groups[g].1 - 1].line == matches[starts[g]].line);
    }
    if groups.len() > 0 {
        assert(starts[groups.len() - 1] < matches.len());
    }
}

/// A window shows its match in the middle: where the line goes on far enough on both sides, as much of
/// it before the match as behind it, give or take one byte. Where it does not, the window reaches the
/// line's start or its end.
pub proof fn windows_centre_their_match(
    line_start: int,
    line_end: int,
    witness: ByteRange,
    max: int,
)
    requires
        0 <= line_start <= witness.start <= witness.end <= line_end <= u64::MAX,
        0 < max,
        witness.end - witness.start <= max,
    ensures
        clip(line_start, line_end, witness, max) matches Ok((start, end)) && {
            let before = witness.start - start;
            let behind = end - witness.end;
            ||| before - behind <= 1 && behind - before <= 1
            ||| start == line_start
            ||| end == line_end
        },
{
}

/// A seed reads no further than a window may reach: at most the size of a window before the first match
/// of the line, and twice that from it on.
pub proof fn seeds_read_no_more_than_windows_need(
    matches: Seq<RegionMatch>,
    i: int,
    end: int,
    decoded_size: u64,
    max: int,
)
    requires
        0 <= i < end <= matches.len(),
        0 < max,
    ensures
        seed_of(matches, i, end, decoded_size, max) matches Ok((from, to)) ==> {
            &&& exists|j: int| i <= j < end && from + max >= (#[trigger] matches[j]).witness.start
                && to <= matches[j].witness.start + 2 * max
            &&& 0 <= from && to <= decoded_size
            &&& forall|j: int|
                i <= j < end ==> from <= (#[trigger] matches[j]).witness.start
        },
{
    lemma_lowest_among(matches, i, end);
    let first = lowest(matches, i, end);
    let j = choose|j: int| i <= j < end && (#[trigger] matches[j]).witness == first;
    assert(matches[j].witness == first);
}

proof fn lemma_lowest_among(matches: Seq<RegionMatch>, i: int, k: int)
    requires
        0 <= i < k <= matches.len(),
    ensures
        exists|j: int| i <= j < k && (#[trigger] matches[j]).witness == lowest(matches, i, k),
        forall|j: int| i <= j < k ==> lowest(matches, i, k).start <= (#[trigger] matches[j]).witness.start,
    decreases k - i,
{
    if k <= i + 1 {
        assert(matches[i].witness == lowest(matches, i, k));
    } else {
        lemma_lowest_among(matches, i, k - 1);
        let j = choose|j: int| i <= j < k - 1 && (#[trigger] matches[j]).witness == lowest(matches, i, k - 1);
        assert(matches[j].witness == lowest(matches, i, k) || matches[k - 1].witness == lowest(
            matches,
            i,
            k,
        ));
    }
}

} // verus!
