//! Compiled patterns, and what they match in a document line by line.

use vstd::prelude::*;

use crate::error::IndexError;
use crate::matches::FoundMatch;

verus! {

#[verifier::external_type_specification]
#[verifier::external_body]
pub struct ExRegex(regex::bytes::Regex);

/// A compiled pattern. Its view is the text of the pattern.
pub struct Program {
    re: regex::bytes::Regex,
    pattern: Ghost<Seq<char>>,
}

impl View for Program {
    type V = Seq<char>;

    closed spec fn view(&self) -> Seq<char> {
        self.pattern@
    }
}

/// Whether a pattern that compiles matches somewhere in bytes.
pub uninterp spec fn regex_matches(pattern: Seq<char>, bytes: Seq<u8>) -> bool;

/// Where a pattern that compiles matches in bytes: the starts and ends of its successive matches.
pub uninterp spec fn regex_spans(pattern: Seq<char>, bytes: Seq<u8>) -> Seq<(usize, usize)>;

/// The spans follow one another in bytes of the given length without overlapping.
pub open spec fn spans_ordered(spans: Seq<(usize, usize)>, len: nat) -> bool {
    &&& forall|i: int| 0 <= i < spans.len() ==> (#[trigger] spans[i]).0 <= spans[i].1 <= len
    &&& forall|i: int, j: int|
        0 <= i < j < spans.len() ==> (#[trigger] spans[i]).1 <= (#[trigger] spans[j]).0
}

/// `matched` says which texts the nodes of a pattern match, and the root matches `text`.
pub open spec fn root_matches(
    pattern: Seq<char>,
    matched: spec_fn(int, Seq<u8>) -> bool,
    text: Seq<u8>,
) -> bool {
    crate::planner::matches_nodes(crate::planner::pattern_nodes(pattern), matched) && matched(
        0,
        text,
    )
}

/// Bytes `from..to` are a match of a pattern that its nodes account for: each node matches some text,
/// which holds a literal of each of the node's lists and what the node's children match.
pub open spec fn accounted_at(pattern: Seq<char>, bytes: Seq<u8>, from: int, to: int) -> bool {
    0 <= from <= to <= bytes.len() && exists|matched: spec_fn(int, Seq<u8>) -> bool| #[trigger]
        root_matches(pattern, matched, bytes.subrange(from, to))
}

/// Some part of the bytes is a match that the pattern's nodes account for.
pub open spec fn accounted(pattern: Seq<char>, bytes: Seq<u8>) -> bool {
    exists|from: int, to: int| #[trigger] accounted_at(pattern, bytes, from, to)
}

/// `regex::bytes::Regex::new`: the compiled pattern, or nothing. It parses as
/// `crate::planner::pattern_places` names it, so what does not parse does not compile. Which of the
/// others compile is not claimed: the limit on a compiled pattern's size counts bytes of memory,
/// which vary with the machine.
#[verifier::external_body]
fn compile_regex(pattern: &str) -> (program: Option<Program>)
    ensures
        program matches Some(program) ==> program@ == pattern@
            && crate::planner::pattern_places(pattern@) is Some,
{
    let re = regex::bytes::Regex::new(pattern).ok()?;
    Some(Program { re, pattern: Ghost(pattern@) })
}

/// `regex::bytes::Regex::is_match`: whether the pattern matches somewhere in `bytes`, which depends
/// on the two alone. Where it does, some part of `bytes` is a match that the nodes of the parsed
/// pattern account for: a concatenation matches only if each of its sub-expressions does, an
/// alternation only if one does (`regex_syntax::hir::HirKind`), and of the literals that were
/// extracted from an expression at least one must match for it to match
/// (`regex_syntax::hir::literal::Seq`).
#[verifier::external_body]
fn regex_is_match(program: &Program, bytes: &[u8]) -> (found: bool)
    ensures
        found == regex_matches(program@, bytes@),
        found ==> accounted(program@, bytes@),
{
    program.re.is_match(bytes)
}

/// `regex::bytes::Regex::find_iter`: the starts and ends of the successive matches, which depend on
/// the pattern and `bytes` alone, follow one another without overlapping, and are none where
/// `Regex::is_match` is false. Each is a match that the nodes of the parsed pattern account for, as
/// for `regex_is_match`.
#[verifier::external_body]
fn regex_find(program: &Program, bytes: &[u8]) -> (spans: Vec<(usize, usize)>)
    ensures
        spans@ == regex_spans(program@, bytes@),
        spans_ordered(spans@, bytes@.len()),
        spans@.len() > 0 <==> regex_matches(program@, bytes@),
        forall|i: int|
            0 <= i < spans@.len() ==> accounted_at(
                program@,
                bytes@,
                (#[trigger] spans@[i]).0 as int,
                spans@[i].1 as int,
            ),
{
    program.re.find_iter(bytes).map(|found| (found.start(), found.end())).collect()
}

impl Program {
    /// Compile a pattern. Fails where it is no regular expression, or compiles to something too
    /// large.
    pub fn compile(pattern: &str) -> (program: Result<Program, IndexError>)
        ensures
            match program {
                Ok(program) => program@ == pattern@ && crate::planner::pattern_places(
                    pattern@,
                ) is Some,
                Err(e) => e == IndexError::BadPattern,
            },
    {
        match compile_regex(pattern) {
            Some(program) => Ok(program),
            None => Err(IndexError::BadPattern),
        }
    }

    /// Whether the pattern matches somewhere in `bytes`, whatever lines they hold.
    pub fn is_match(&self, bytes: &[u8]) -> (found: bool)
        ensures
            found == regex_matches(self@, bytes@),
            found ==> accounted(self@, bytes@),
    {
        regex_is_match(self, bytes)
    }
}

/// Bytes `from..to` are a line, without the newline that may end it. There is none behind the last
/// newline.
pub open spec fn is_line(bytes: Seq<u8>, from: int, to: int) -> bool {
    &&& 0 <= from <= to <= bytes.len()
    &&& from < bytes.len()
    &&& from == 0 || bytes[from - 1] == 10
    &&& to == bytes.len() || bytes[to] == 10
    &&& one_line(bytes, from, to)
}

/// There is no newline among bytes `from..to`.
pub open spec fn one_line(bytes: Seq<u8>, from: int, to: int) -> bool {
    forall|p: int| from <= p < to ==> #[trigger] bytes[p] != 10
}

/// The pattern matches in a line of the document.
pub open spec fn line_matches(pattern: Seq<char>, bytes: Seq<u8>) -> bool {
    exists|from: int, to: int| #[trigger]
        is_line(bytes, from, to) && regex_matches(pattern, bytes.subrange(from, to))
}

/// Within some line of the document is a match that the pattern's nodes account for.
pub open spec fn line_accounted(pattern: Seq<char>, bytes: Seq<u8>) -> bool {
    exists|from: int, to: int| #[trigger]
        accounted_at(pattern, bytes, from, to) && one_line(bytes, from, to)
}

/// The end of the line that place `from` is on.
pub open spec fn line_end(bytes: Seq<u8>, from: int) -> int
    decreases bytes.len() - from,
{
    if from < 0 || from >= bytes.len() || bytes[from] == 10 {
        from
    } else {
        line_end(bytes, from + 1)
    }
}

/// Spans that begin `by` further on.
pub open spec fn shifted(spans: Seq<(usize, usize)>, by: int) -> Seq<(usize, usize)> {
    spans.map_values(|span: (usize, usize)| ((span.0 + by) as usize, (span.1 + by) as usize))
}

/// Where the pattern matches in the lines from byte `from` on, each line searched by itself.
pub open spec fn line_spans(pattern: Seq<char>, bytes: Seq<u8>, from: int) -> Seq<(usize, usize)>
    decreases bytes.len() + 1 - from,
{
    if from < 0 || from >= bytes.len() {
        Seq::empty()
    } else {
        let end = line_end(bytes, from);
        proof {
            lemma_line_end(bytes, from);
        }
        shifted(regex_spans(pattern, bytes.subrange(from, end)), from) + line_spans(
            pattern,
            bytes,
            end + 1,
        )
    }
}

/// A line ends at its newline, or with the document.
pub proof fn lemma_line_end(bytes: Seq<u8>, from: int)
    requires
        0 <= from <= bytes.len(),
    ensures
        from <= line_end(bytes, from) <= bytes.len(),
        line_end(bytes, from) == bytes.len() || bytes[line_end(bytes, from)] == 10,
        one_line(bytes, from, line_end(bytes, from)),
    decreases bytes.len() - from,
{
    if from < bytes.len() && bytes[from] != 10 {
        lemma_line_end(bytes, from + 1);
    }
}

/// A line that starts at `from` ends where the line of `from` ends.
proof fn lemma_one_end(bytes: Seq<u8>, from: int, to: int)
    requires
        is_line(bytes, from, to),
    ensures
        to == line_end(bytes, from),
{
    lemma_line_end(bytes, from);
    let end = line_end(bytes, from);
    if to < end {
        assert(bytes[to] != 10);
    } else if end < to {
        assert(bytes[end] != 10);
    }
}

/// A match within a line is one of the document.
proof fn lemma_accounted_in_line(
    pattern: Seq<char>,
    bytes: Seq<u8>,
    start: int,
    end: int,
    from: int,
    to: int,
)
    requires
        0 <= start <= end <= bytes.len(),
        one_line(bytes, start, end),
        accounted_at(pattern, bytes.subrange(start, end), from, to),
    ensures
        accounted_at(pattern, bytes, start + from, start + to),
        line_accounted(pattern, bytes),
{
    assert(bytes.subrange(start, end).subrange(from, to) =~= bytes.subrange(
        start + from,
        start + to,
    ));
    assert(accounted_at(pattern, bytes, start + from, start + to));
    assert(one_line(bytes, start + from, start + to));
}

/// Where the line that starts at `from` ends.
fn find_line_end(bytes: &[u8], from: usize) -> (end: usize)
    requires
        from <= bytes@.len(),
    ensures
        end == line_end(bytes@, from as int),
        from <= end <= bytes@.len(),
{
    let mut end: usize = from;
    while end < bytes.len() && bytes[end] != 10
        invariant
            from <= end <= bytes@.len(),
            line_end(bytes@, from as int) == line_end(bytes@, end as int),
        decreases bytes@.len() - end,
    {
        end = end + 1;
    }
    end
}

/// Whether the pattern matches in a line of the document.
pub fn has_line_match(program: &Program, bytes: &[u8]) -> (found: bool)
    ensures
        found == line_matches(program@, bytes@),
        found ==> line_accounted(program@, bytes@),
{
    let mut at: usize = 0;
    while at < bytes.len()
        invariant
            at <= bytes@.len(),
            at == 0 || at == bytes@.len() || bytes@[at - 1] == 10,
            forall|from: int, to: int| #[trigger]
                is_line(bytes@, from, to) && from < at ==> !regex_matches(
                    program@,
                    bytes@.subrange(from, to),
                ),
        decreases bytes@.len() - at,
    {
        let end: usize = find_line_end(bytes, at);
        proof {
            lemma_line_end(bytes@, at as int);
        }
        let line: &[u8] = vstd::slice::slice_subrange(bytes, at, end);
        if program.is_match(line) {
            proof {
                assert(is_line(bytes@, at as int, end as int));
                let (from, to) = choose|from: int, to: int| #[trigger]
                    accounted_at(program@, line@, from, to);
                lemma_accounted_in_line(program@, bytes@, at as int, end as int, from, to);
            }
            return true;
        }
        assert forall|from: int, to: int| #[trigger]
            is_line(bytes@, from, to) && from < end + 1 implies !regex_matches(
            program@,
            bytes@.subrange(from, to),
        ) by {
            if from == at {
                lemma_one_end(bytes@, from, to);
            } else if from > at {
                assert(bytes@[from - 1] != 10);
            }
        }
        at = if end < bytes.len() {
            end + 1
        } else {
            end
        };
    }
    false
}

/// Matches of one pattern at the given places.
pub open spec fn found_at_spans(spans: Seq<(usize, usize)>) -> Seq<FoundMatch> {
    spans.map_values(
        |span: (usize, usize)|
            FoundMatch { pattern: 0, start: span.0, end: span.1, canonical_span_known: true },
    )
}

/// In each line that starts before byte `at`, the matches follow one another.
pub open spec fn lines_ordered(pattern: Seq<char>, bytes: Seq<u8>, at: int) -> bool {
    forall|from: int, to: int| #[trigger]
        is_line(bytes, from, to) && from < at ==> spans_ordered(
            regex_spans(pattern, bytes.subrange(from, to)),
            (to - from) as nat,
        )
}

/// What was found up to byte `at`, where a line starts or the document ends.
spec fn found_before(pattern: Seq<char>, bytes: Seq<u8>, found: Seq<FoundMatch>, at: int) -> bool {
    &&& found + found_at_spans(line_spans(pattern, bytes, at)) == found_at_spans(
        line_spans(pattern, bytes, 0),
    )
    &&& crate::matches::found_in_order(found, bytes.len())
    &&& lines_ordered(pattern, bytes, at)
    &&& forall|k: int|
        0 <= k < found.len() ==> (#[trigger] found[k]).end <= at && accounted_at(
            pattern,
            bytes,
            found[k].start as int,
            found[k].end as int,
        ) && one_line(bytes, found[k].start as int, found[k].end as int)
            && !crate::matches::behind_last_line(bytes, found[k])
    &&& found.len() > 0 <==> exists|from: int, to: int| #[trigger]
        is_line(bytes, from, to) && from < at && regex_matches(pattern, bytes.subrange(from, to))
}

/// One line more was searched.
proof fn lemma_found_more(
    pattern: Seq<char>,
    bytes: Seq<u8>,
    found: Seq<FoundMatch>,
    at: int,
    spans: Seq<(usize, usize)>,
    next: int,
)
    requires
        0 <= at < bytes.len() <= usize::MAX,
        at == 0 || bytes[at - 1] == 10,
        found_before(pattern, bytes, found, at),
        ({
            let end = line_end(bytes, at);
            let line = bytes.subrange(at, end);
            &&& spans == regex_spans(pattern, line)
            &&& spans_ordered(spans, line.len())
            &&& spans.len() > 0 <==> regex_matches(pattern, line)
            &&& forall|i: int|
                0 <= i < spans.len() ==> accounted_at(
                    pattern,
                    line,
                    (#[trigger] spans[i]).0 as int,
                    spans[i].1 as int,
                )
            &&& next == if end < bytes.len() {
                end + 1
            } else {
                end
            }
        }),
    ensures
        found_before(pattern, bytes, found + found_at_spans(shifted(spans, at)), next),
{
    let end = line_end(bytes, at);
    lemma_line_end(bytes, at);
    assert(is_line(bytes, at, end));
    let more = found_at_spans(shifted(spans, at));
    let all = found + more;
    let here = shifted(spans, at);
    let rest = line_spans(pattern, bytes, end + 1);
    assert(line_spans(pattern, bytes, at) == here + rest);
    assert(line_spans(pattern, bytes, next) == rest);
    assert(found_at_spans(here + rest) =~= found_at_spans(here) + found_at_spans(rest));
    assert(all + found_at_spans(rest) =~= found + (found_at_spans(here) + found_at_spans(rest)));
    assert forall|k: int| 0 <= k < all.len() implies (#[trigger] all[k]).start <= all[k].end <= next
        && accounted_at(pattern, bytes, all[k].start as int, all[k].end as int) && one_line(
        bytes,
        all[k].start as int,
        all[k].end as int,
    ) && !crate::matches::behind_last_line(bytes, all[k]) by {
        if k < found.len() {
            assert(all[k] == found[k]);
        } else {
            let i = k - found.len();
            assert(spans[i].0 <= spans[i].1);
            assert(all[k].start == spans[i].0 + at && all[k].end == spans[i].1 + at);
            lemma_accounted_in_line(
                pattern,
                bytes,
                at,
                end,
                spans[i].0 as int,
                spans[i].1 as int,
            );
            assert(one_line(bytes, all[k].start as int, all[k].end as int));
            if all[k].start == bytes.len() {
                assert(bytes[bytes.len() - 1] != 10);
            }
        }
    }
    assert forall|i: int, j: int| 0 <= i < j < all.len() implies (#[trigger] all[i]).start
        <= (#[trigger] all[j]).start by {
        if j < found.len() {
            assert(all[i] == found[i] && all[j] == found[j]);
        } else {
            let b = j - found.len();
            assert(all[j].start == spans[b].0 + at) by {
                assert(spans[b].0 <= spans[b].1);
            }
            if i < found.len() {
                assert(all[i] == found[i]);
                assert(found[i].start <= found[i].end);
            } else {
                let a = i - found.len();
                assert(spans[a].0 <= spans[a].1 && spans[a].1 <= spans[b].0);
                assert(all[i].start == spans[a].0 + at);
            }
        }
    }
    if all.len() > 0 {
        if found.len() > 0 {
            let (from, to) = choose|from: int, to: int| #[trigger]
                is_line(bytes, from, to) && from < at && regex_matches(
                    pattern,
                    bytes.subrange(from, to),
                );
            assert(is_line(bytes, from, to));
        } else {
            assert(is_line(bytes, at, end));
        }
    }
    assert forall|from: int, to: int| #[trigger]
        is_line(bytes, from, to) && from < next implies spans_ordered(
        regex_spans(pattern, bytes.subrange(from, to)),
        (to - from) as nat,
    ) by {
        if from == at {
            lemma_one_end(bytes, from, to);
        } else if from > at {
            assert(bytes[from - 1] != 10);
        }
    }
    assert forall|from: int, to: int| #[trigger]
        is_line(bytes, from, to) && from < next && regex_matches(
            pattern,
            bytes.subrange(from, to),
        ) implies all.len() > 0 by {
        if from == at {
            lemma_one_end(bytes, from, to);
        } else if from > at {
            assert(bytes[from - 1] != 10);
        }
    }
}

/// The matches of a pattern in a document, line by line, as they are found one after the other.
pub fn find_matches(program: &Program, bytes: &[u8]) -> (found: Vec<FoundMatch>)
    ensures
        found@ == found_at_spans(line_spans(program@, bytes@, 0)),
        crate::matches::found_in_order(found@, bytes@.len()),
        forall|k: int|
            0 <= k < found@.len() ==> !crate::matches::behind_last_line(
                bytes@,
                #[trigger] found@[k],
            ),
        lines_ordered(program@, bytes@, bytes@.len() as int),
        found@.len() > 0 <==> line_matches(program@, bytes@),
        found@.len() > 0 ==> line_accounted(program@, bytes@),
{
    let mut found: Vec<FoundMatch> = Vec::new();
    let len: usize = bytes.len();
    let mut at: usize = 0;
    assert(found@ + found_at_spans(line_spans(program@, bytes@, 0)) =~= found_at_spans(
        line_spans(program@, bytes@, 0),
    ));
    while at < len
        invariant
            at <= bytes@.len(),
            len == bytes@.len(),
            at == 0 || at == bytes@.len() || bytes@[at - 1] == 10,
            found_before(program@, bytes@, found@, at as int),
        decreases bytes@.len() - at,
    {
        let end: usize = find_line_end(bytes, at);
        proof {
            lemma_line_end(bytes@, at as int);
        }
        let line: &[u8] = vstd::slice::slice_subrange(bytes, at, end);
        let spans = regex_find(program, line);
        let next: usize = if end < len {
            end + 1
        } else {
            end
        };
        let ghost before = found@;
        proof {
            lemma_found_more(program@, bytes@, before, at as int, spans@, next as int);
        }
        let mut i: usize = 0;
        while i < spans.len()
            invariant
                i <= spans.len(),
                at + line@.len() <= usize::MAX,
                spans_ordered(spans@, line@.len()),
                found@ == before + found_at_spans(shifted(spans@, at as int)).take(i as int),
            decreases spans.len() - i,
        {
            let (start, stop): (usize, usize) = spans[i];
            assert(spans@[i as int].0 <= spans@[i as int].1);
            let ghost list = found_at_spans(shifted(spans@, at as int));
            found.push(
                FoundMatch {
                    pattern: 0,
                    start: at + start,
                    end: at + stop,
                    canonical_span_known: true,
                },
            );
            assert(list.take(i + 1) =~= list.take(i as int).push(list[i as int]));
            assert(found@ =~= before + list.take(i + 1));
            i = i + 1;
        }
        proof {
            let list = found_at_spans(shifted(spans@, at as int));
            assert(list.take(i as int) =~= list);
        }
        at = next;
    }
    proof {
        assert(line_spans(program@, bytes@, at as int) =~= Seq::empty());
        assert(found@ + found_at_spans(line_spans(program@, bytes@, at as int)) =~= found@);
        if found@.len() > 0 {
            assert(accounted_at(
                program@,
                bytes@,
                found@[0].start as int,
                found@[0].end as int,
            ));
        }
    }
    found
}

/// A span is the `i`th match of a line of the document.
pub open spec fn span_of_line(
    pattern: Seq<char>,
    bytes: Seq<u8>,
    from: int,
    to: int,
    i: int,
    span: (usize, usize),
) -> bool {
    let spans = regex_spans(pattern, bytes.subrange(from, to));
    &&& is_line(bytes, from, to)
    &&& 0 <= i < spans.len()
    &&& span.0 == spans[i].0 + from
    &&& span.1 == spans[i].1 + from
}

/// The spans of a document's lines are matches of lines.
pub proof fn line_spans_are_of_lines(pattern: Seq<char>, bytes: Seq<u8>, at: int, k: int) -> (place: (
    int,
    int,
    int,
))
    requires
        bytes.len() <= usize::MAX,
        lines_ordered(pattern, bytes, bytes.len() as int),
        0 <= at <= bytes.len() + 1,
        at == 0 || at > bytes.len() || bytes[at - 1] == 10,
        0 <= k < line_spans(pattern, bytes, at).len(),
    ensures
        span_of_line(
            pattern,
            bytes,
            place.0,
            place.1,
            place.2,
            line_spans(pattern, bytes, at)[k],
        ),
    decreases bytes.len() + 1 - at,
{
    let end = line_end(bytes, at);
    lemma_line_end(bytes, at);
    assert(is_line(bytes, at, end));
    let spans = regex_spans(pattern, bytes.subrange(at, end));
    if k < spans.len() {
        assert(spans[k].0 <= spans[k].1 <= end - at);
        (at, end, k)
    } else {
        line_spans_are_of_lines(pattern, bytes, end + 1, k - spans.len())
    }
}

/// Every match of a line is among the spans of the document's lines.
pub proof fn matches_of_lines_are_line_spans(
    pattern: Seq<char>,
    bytes: Seq<u8>,
    at: int,
    from: int,
    to: int,
    i: int,
) -> (k: int)
    requires
        bytes.len() <= usize::MAX,
        lines_ordered(pattern, bytes, bytes.len() as int),
        0 <= at <= from,
        at == 0 || bytes[at - 1] == 10,
        is_line(bytes, from, to),
        0 <= i < regex_spans(pattern, bytes.subrange(from, to)).len(),
    ensures
        0 <= k < line_spans(pattern, bytes, at).len(),
        span_of_line(pattern, bytes, from, to, i, line_spans(pattern, bytes, at)[k]),
    decreases from - at,
{
    let end = line_end(bytes, at);
    lemma_line_end(bytes, at);
    assert(is_line(bytes, at, end));
    let spans = regex_spans(pattern, bytes.subrange(at, end));
    if at == from {
        lemma_one_end(bytes, from, to);
        assert(spans[i].0 <= spans[i].1 <= end - at);
        i
    } else {
        if from <= end {
            assert(bytes[from - 1] != 10);
        }
        spans.len() + matches_of_lines_are_line_spans(pattern, bytes, end + 1, from, to, i)
    }
}

/// Bytes `start..end` are whole lines of the document; the newline of the last may be missing.
pub open spec fn whole_lines(bytes: Seq<u8>, start: int, end: int) -> bool {
    &&& 0 <= start < end <= bytes.len()
    &&& start == 0 || bytes[start - 1] == 10
    &&& end == bytes.len() || bytes[end - 1] == 10 || bytes[end] == 10
}

/// The lines of whole lines are lines of the document.
pub proof fn lines_of_whole_lines(bytes: Seq<u8>, start: int, end: int, from: int, to: int)
    requires
        whole_lines(bytes, start, end),
        0 <= from <= to <= end - start,
        from < end - start,
    ensures
        is_line(bytes.subrange(start, end), from, to) <==> is_line(bytes, start + from, start + to),
        bytes.subrange(start, end).subrange(from, to) == bytes.subrange(start + from, start + to),
{
    let part = bytes.subrange(start, end);
    assert(part.subrange(from, to) =~= bytes.subrange(start + from, start + to));
    if is_line(part, from, to) {
        assert forall|p: int| start + from <= p < start + to implies #[trigger] bytes[p] != 10 by {
            assert(part[p - start] != 10);
        }
        if from > 0 {
            assert(part[from - 1] == bytes[start + from - 1]);
        }
        if to < part.len() {
            assert(part[to] == bytes[start + to]);
        }
    }
    if is_line(bytes, start + from, start + to) {
        assert forall|p: int| from <= p < to implies #[trigger] part[p] != 10 by {
            assert(bytes[start + p] != 10);
        }
    }
}

} // verus!
