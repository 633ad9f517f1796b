//! Line events of several regions, and of several documents, brought together.

use crate::events::{merge_line_events, shift_events, LineEvent, LineKind};
use crate::ranking::{rank_sorted, Ranked};
use crate::text::{bytes_less, text_less};
use vstd::prelude::*;

verus! {

/// Matching lines among the first `n` events.
pub open spec fn match_count(events: Seq<LineEvent>, n: int) -> nat
    decreases n,
{
    if n <= 0 {
        0
    } else {
        match_count(events, n - 1) + if events[n - 1].kind == LineKind::Match {
            1nat
        } else {
            0
        }
    }
}

fn count_matches(events: &Vec<LineEvent>) -> (count: usize)
    ensures
        count == match_count(events@, events@.len() as int),
{
    let mut count: usize = 0;
    let mut i: usize = 0;
    while i < events.len()
        invariant
            i <= events.len(),
            count <= i,
            count == match_count(events@, i as int),
        decreases events.len() - i,
    {
        if events[i].kind == LineKind::Match {
            count = count + 1;
        }
        i = i + 1;
    }
    count
}

/// The lines of a document's regions, collected up to a number of matching lines.
#[derive(Debug)]
pub struct LineCollector {
    pub events: Vec<LineEvent>,
    pub matched: u64,
    pub max_count: Option<u64>,
}

impl LineCollector {
    pub fn new(max_count: Option<u64>) -> (collector: LineCollector)
        ensures
            collector.events@.len() == 0,
            collector.matched == 0,
            collector.max_count == max_count,
    {
        LineCollector { events: Vec::new(), matched: 0, max_count }
    }

    /// How many more matching lines are wanted: nothing where there are enough, and else the
    /// number for the next region, if there is a limit.
    pub fn budget(&self) -> (budget: Option<Option<u64>>)
        ensures
            budget == match self.max_count {
                None => Some(None::<u64>),
                Some(limit) => if limit <= self.matched {
                    None
                } else {
                    Some(Some((limit - self.matched) as u64))
                },
            },
    {
        match self.max_count {
            None => Some(None),
            Some(limit) => if limit <= self.matched {
                None
            } else {
                Some(Some(limit - self.matched))
            },
        }
    }

    /// Take the lines that were found in a region, with lines and offsets counted from its start.
    pub fn take_region(&mut self, found: Vec<LineEvent>, region_line: u64, region_start: u64)
        requires
            crate::events::shiftable(found@, region_line, region_start),
            old(self).matched + found@.len() <= u64::MAX,
        ensures
            crate::events::event_views(final(self).events@) == crate::events::event_views(
                old(self).events@,
            ) + crate::events::shifted_views(found@, region_line, region_start),
            final(self).matched == old(self).matched + match_count(found@, found@.len() as int),
            final(self).max_count == old(self).max_count,
    {
        let count: usize = count_matches(&found);
        proof {
            lemma_match_count(found@, found@.len() as int);
        }
        self.matched = self.matched + count as u64;
        let mut shifted = shift_events(found, region_line, region_start);
        let ghost before = self.events@;
        let ghost more = shifted@;
        self.events.append(&mut shifted);
        assert(crate::events::event_views(before + more) =~= crate::events::event_views(before)
            + crate::events::event_views(more));
    }

    /// The lines of all regions, each once.
    pub fn finish(self) -> (events: Vec<LineEvent>)
        ensures
            crate::events::event_views(events@) == crate::events::merged_events(self.events@),
    {
        merge_line_events(self.events)
    }
}

proof fn lemma_match_count(events: Seq<LineEvent>, n: int)
    requires
        0 <= n <= events.len(),
    ensures
        match_count(events, n) <= n,
    decreases n,
{
    if n > 0 {
        lemma_match_count(events, n - 1);
    }
}

/// A region is only searched for as many lines as are still wanted: where each region keeps to
/// its budget, so does the whole.
pub proof fn collected_lines_keep_to_the_limit(
    before: LineCollector,
    after: LineCollector,
    found: Seq<LineEvent>,
    budget: u64,
    limit: u64,
)
    requires
        before.max_count == Some(limit),
        before.matched < limit,
        budget == limit - before.matched,
        match_count(found, found.len() as int) <= budget,
        after.matched == before.matched + match_count(found, found.len() as int),
    ensures
        after.matched <= limit,
{
}

/// A line event together with the key of its document.
#[derive(Debug)]
pub struct Collected {
    pub key: String,
    pub event: LineEvent,
}

/// Where the first match of a line starts; -1 where it has none.
pub open spec fn first_start(event: LineEvent) -> int {
    if event.submatches@.len() == 0 {
        -1
    } else {
        event.submatches@[0].start as int
    }
}

fn starts_before(a: &LineEvent, b: &LineEvent) -> (before: bool)
    ensures
        before == (first_start(*a) < first_start(*b)),
{
    if b.submatches.len() == 0 {
        false
    } else if a.submatches.len() == 0 {
        true
    } else {
        a.submatches[0].start < b.submatches[0].start
    }
}

/// Within a document: by line, by where the first match starts, by text.
pub open spec fn event_before(a: LineEvent, b: LineEvent) -> bool {
    a.line < b.line || (a.line == b.line && (first_start(a) < first_start(b) || (first_start(a)
        == first_start(b) && crate::text::bytes_before(a.text@, b.text@))))
}

impl Ranked for Collected {
    /// By key, then by line, by where the first match starts, and by text.
    open spec fn before(&self, other: &Collected) -> bool {
        crate::text::text_before(self.key@, other.key@) || (!crate::text::text_before(
            other.key@,
            self.key@,
        ) && event_before(self.event, other.event))
    }

    proof fn order(a: &Collected, b: &Collected, c: &Collected) {
        crate::ranking::lemma_bytes_order(a.event.text@, b.event.text@, c.event.text@);
        crate::ranking::lemma_text_order(a.key@, b.key@, c.key@);
        crate::ranking::lemma_text_order(c.key@, b.key@, a.key@);
        crate::ranking::lemma_text_order(b.key@, a.key@, c.key@);
        crate::ranking::lemma_text_order(c.key@, a.key@, b.key@);
        crate::ranking::lemma_text_order(a.key@, c.key@, b.key@);
        crate::ranking::lemma_text_order(b.key@, c.key@, a.key@);
    }

    fn ranks_before(&self, other: &Collected) -> (before: bool) {
        if text_less(self.key.as_str(), other.key.as_str()) {
            true
        } else if text_less(other.key.as_str(), self.key.as_str()) {
            false
        } else if self.event.line != other.event.line {
            self.event.line < other.event.line
        } else if starts_before(&self.event, &other.event) {
            true
        } else if starts_before(&other.event, &self.event) {
            false
        } else {
            bytes_less(self.event.text.as_slice(), other.event.text.as_slice())
        }
    }
}

/// The lines of all documents by key, line, first match and text.
pub fn sort_collected(lines: Vec<Collected>) -> (sorted: Vec<Collected>)
    ensures
        sorted@ == crate::ranking::rank_sort(lines@),
        crate::ranking::in_rank_order(sorted@),
        sorted@.to_multiset() == lines@.to_multiset(),
{
    proof {
        crate::ranking::ranking_orders_and_keeps(lines@);
    }
    rank_sorted(lines)
}

/// What counts toward the limit of lines is the matching lines, and no line of context.
pub proof fn only_matching_lines_count(events: Seq<LineEvent>, n: int)
    requires
        0 <= n <= events.len(),
    ensures
        match_count(events, n) == events.take(n).filter(
            |event: LineEvent| event.kind == LineKind::Match,
        ).len(),
    decreases n,
{
    reveal(Seq::filter);
    if n > 0 {
        only_matching_lines_count(events, n - 1);
        assert(events.take(n).drop_last() =~= events.take(n - 1));
    }
}

/// Collected lines are sorted by key, and the lines of one key by number.
pub proof fn collected_lines_go_by_key_and_number(lines: Seq<Collected>, i: int, j: int)
    requires
        0 <= i < j < crate::ranking::rank_sort(lines).len(),
    ensures
        ({
            let first = crate::ranking::rank_sort(lines)[i];
            let second = crate::ranking::rank_sort(lines)[j];
            &&& !crate::text::text_before(second.key@, first.key@)
            &&& first.key@ == second.key@ ==> first.event.line <= second.event.line
        }),
{
    crate::ranking::ranking_orders_and_keeps(lines);
    let first = crate::ranking::rank_sort(lines)[i];
    let second = crate::ranking::rank_sort(lines)[j];
    assert(!second.before(&first));
    crate::text::lemma_before_irreflexive(crate::text::utf8(first.key@));
}

} // verus!
