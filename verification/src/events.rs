//! Line events: what is reported of the lines that matches lie in.

use crate::matches::RegionMatch;
use crate::sorting::{stable_sort, Keyed};
use vstd::prelude::*;

verus! {

#[derive(Debug, Clone, Copy, PartialEq, Eq, Structural)]
pub enum LineKind {
    Match,
    Context,
}

/// A match within a line.
#[derive(Debug, Clone, Copy, PartialEq, Eq, Structural)]
pub struct SubMatch {
    pub start: usize,
    pub end: usize,
}

impl Keyed for SubMatch {
    open spec fn key(&self) -> (int, int, int, int, int) {
        (self.start as int, self.end as int, 0, 0, 0)
    }

    fn precedes(&self, other: &SubMatch) -> (before: bool) {
        self.start < other.start || (self.start == other.start && self.end < other.end)
    }
}

/// A matching line or a line of context.
#[derive(Debug, PartialEq, Eq)]
pub struct LineEvent {
    pub line: u64,
    pub kind: LineKind,
    pub offset: u64,
    pub text: Vec<u8>,
    pub submatches: Vec<SubMatch>,
}

/// The model of `LineEvent`.
#[verifier::ext_equal]
pub struct EventView {
    pub line: u64,
    pub kind: LineKind,
    pub offset: u64,
    pub text: Seq<u8>,
    pub submatches: Seq<SubMatch>,
}

impl View for LineEvent {
    type V = EventView;

    open spec fn view(&self) -> EventView {
        EventView {
            line: self.line,
            kind: self.kind,
            offset: self.offset,
            text: self.text@,
            submatches: self.submatches@,
        }
    }
}

pub open spec fn event_views(events: Seq<LineEvent>) -> Seq<EventView> {
    events.map_values(|event: LineEvent| event@)
}

impl Keyed for LineEvent {
    open spec fn key(&self) -> (int, int, int, int, int) {
        (
            self.line as int,
            self.offset as int,
            if self.kind == LineKind::Context {
                1
            } else {
                0
            },
            0,
            0,
        )
    }

    fn precedes(&self, other: &LineEvent) -> (before: bool) {
        if self.line != other.line {
            self.line < other.line
        } else if self.offset != other.offset {
            self.offset < other.offset
        } else {
            self.kind == LineKind::Match && other.kind == LineKind::Context
        }
    }
}

/// An empty submatch: it stands for a match whose place is not reported.
pub open spec fn counted() -> SubMatch {
    SubMatch { start: 0, end: 0 }
}

/// One event for each matching line, with one submatch, or one for each match.
pub open spec fn count_events(matches: Seq<RegionMatch>, count_matches: bool, n: int) -> Seq<
    EventView,
>
    decreases n,
{
    if n <= 0 {
        Seq::empty()
    } else {
        let front = count_events(matches, count_matches, n - 1);
        let next = matches[n - 1];
        if front.len() > 0 && front.last().line == next.line {
            if count_matches {
                let last = front.last();
                front.drop_last().push(
                    EventView { submatches: last.submatches.push(counted()), ..last },
                )
            } else {
                front
            }
        } else {
            front.push(
                EventView {
                    line: next.line,
                    kind: LineKind::Match,
                    offset: next.line_offset,
                    text: Seq::empty(),
                    submatches: seq![counted()],
                },
            )
        }
    }
}

/// Events for counting: which lines match, or how many matches each has.
pub fn build_count_events(matches: &[RegionMatch], count_matches: bool) -> (events: Vec<LineEvent>)
    ensures
        event_views(events@) == count_events(matches@, count_matches, matches@.len() as int),
{
    let mut events: Vec<LineEvent> = Vec::new();
    let mut i: usize = 0;
    assert(event_views(events@) =~= Seq::<EventView>::empty());
    while i < matches.len()
        invariant
            i <= matches.len(),
            event_views(events@) == count_events(matches@, count_matches, i as int),
        decreases matches.len() - i,
    {
        let next: RegionMatch = matches[i];
        let ghost front = event_views(events@);
        let mut joins: bool = false;
        if events.len() > 0 {
            assert(front.last() == events@.last()@);
            joins = events[events.len() - 1].line == next.line;
        }
        if joins {
            if count_matches {
                if let Some(last) = events.pop() {
                    let ghost old_last = last@;
                    let mut last = last;
                    last.submatches.push(SubMatch { start: 0, end: 0 });
                    events.push(last);
                    assert(event_views(events@) =~= front.drop_last().push(
                        EventView { submatches: old_last.submatches.push(counted()), ..old_last },
                    ));
                }
            }
        } else {
            let mut submatches: Vec<SubMatch> = Vec::new();
            submatches.push(SubMatch { start: 0, end: 0 });
            assert(submatches@ =~= seq![counted()]);
            let text: Vec<u8> = Vec::new();
            assert(text@ =~= Seq::<u8>::empty());
            let event = LineEvent {
                line: next.line,
                kind: LineKind::Match,
                offset: next.line_offset,
                text,
                submatches,
            };
            let ghost view = event@;
            events.push(event);
            assert(event_views(events@) =~= front.push(view));
        }
        i = i + 1;
    }
    events
}

/// Counting lines gives one event for each line that matches begin, and counting matches gives as
/// many submatches as there are matches.
pub proof fn counts_are_exact(matches: Seq<RegionMatch>, n: int)
    requires
        0 <= n <= matches.len(),
    ensures
        submatch_total(count_events(matches, true, n)) == n,
        count_events(matches, true, n).len() == count_events(matches, false, n).len(),
    decreases n,
{
    if n > 0 {
        counts_are_exact(matches, n - 1);
        lemma_count_lines_agree(matches, n - 1);
        let front = count_events(matches, true, n - 1);
        let all = count_events(matches, true, n);
        if front.len() > 0 && front.last().line == matches[n - 1].line {
            assert(all.drop_last() =~= front.drop_last());
        } else {
            assert(all.drop_last() =~= front);
        }
    }
}

/// Submatches of all events.
pub open spec fn submatch_total(events: Seq<EventView>) -> nat
    decreases events.len(),
{
    if events.len() == 0 {
        0
    } else {
        submatch_total(events.drop_last()) + events.last().submatches.len()
    }
}

proof fn lemma_count_lines_agree(matches: Seq<RegionMatch>, n: int)
    requires
        0 <= n <= matches.len(),
    ensures
        ({
            let a = count_events(matches, true, n);
            let b = count_events(matches, false, n);
            a.len() == b.len() && (a.len() > 0 ==> a.last().line == b.last().line)
        }),
    decreases n,
{
    if n > 0 {
        lemma_count_lines_agree(matches, n - 1);
    }
}

/// Of submatches that repeat the one before them, only the first.
pub open spec fn unrepeated(subs: Seq<SubMatch>) -> Seq<SubMatch>
    decreases subs.len(),
{
    if subs.len() == 0 {
        Seq::empty()
    } else {
        let front = unrepeated(subs.drop_last());
        if front.len() > 0 && front.last() == subs.last() {
            front
        } else {
            front.push(subs.last())
        }
    }
}

fn drop_repeats(subs: Vec<SubMatch>) -> (kept: Vec<SubMatch>)
    ensures
        kept@ == unrepeated(subs@),
{
    let mut kept: Vec<SubMatch> = Vec::new();
    let mut i: usize = 0;
    assert(kept@ =~= unrepeated(subs@.take(0)));
    while i < subs.len()
        invariant
            i <= subs.len(),
            kept@ == unrepeated(subs@.take(i as int)),
        decreases subs.len() - i,
    {
        let next: SubMatch = subs[i];
        assert(subs@.take(i + 1).drop_last() =~= subs@.take(i as int));
        let repeats: bool = kept.len() > 0 && kept[kept.len() - 1].start == next.start
            && kept[kept.len() - 1].end == next.end;
        if !repeats {
            kept.push(next);
        }
        i = i + 1;
    }
    assert(subs@.take(i as int) =~= subs@);
    kept
}

/// An event after the events of the lines before it: two events of one line become one, a match
/// takes the place of context, and two matches share their submatches.
pub open spec fn event_step(merged: Seq<EventView>, event: EventView) -> Seq<EventView> {
    if merged.len() > 0 && merged.last().line == event.line {
        let last = merged.last();
        if last.kind == LineKind::Match && event.kind == LineKind::Match {
            let takes_text = last.text.len() == 0 && event.text.len() > 0;
            merged.drop_last().push(
                EventView {
                    line: last.line,
                    kind: LineKind::Match,
                    offset: if takes_text {
                        event.offset
                    } else {
                        last.offset
                    },
                    text: if takes_text {
                        event.text
                    } else {
                        last.text
                    },
                    submatches: unrepeated(
                        crate::sorting::sort_items(last.submatches + event.submatches),
                    ),
                },
            )
        } else if last.kind == LineKind::Context && event.kind == LineKind::Match {
            merged.drop_last().push(event)
        } else {
            merged
        }
    } else {
        merged.push(event)
    }
}

pub open spec fn event_steps(events: Seq<EventView>) -> Seq<EventView>
    decreases events.len(),
{
    if events.len() == 0 {
        Seq::empty()
    } else {
        event_step(event_steps(events.drop_last()), events.last())
    }
}

/// The events in order of their lines, one for each line.
pub open spec fn merged_events(events: Seq<LineEvent>) -> Seq<EventView> {
    event_steps(event_views(crate::sorting::sort_items(events)))
}

/// One event for each line, in order of the lines.
pub fn merge_line_events(events: Vec<LineEvent>) -> (merged: Vec<LineEvent>)
    ensures
        event_views(merged@) == merged_events(events@),
        lines_told(event_views(events@), event_views(merged@)),
{
    let sorted = stable_sort(events);
    let ghost all = event_views(sorted@);
    let mut rest: Vec<LineEvent> = Vec::new();
    let mut source = sorted;
    let ghost given = source@;
    while source.len() > 0
        invariant
            source@.len() <= given.len(),
            source@ == given.take(source@.len() as int),
            rest@.len() == given.len() - source@.len(),
            forall|k: int| 0 <= k < rest@.len() ==> #[trigger] rest@[k] == given[given.len() - 1 - k],
        decreases source.len(),
    {
        if let Some(event) = source.pop() {
            rest.push(event);
            assert(source@ =~= given.take(source@.len() as int));
        }
    }
    let mut merged: Vec<LineEvent> = Vec::new();
    let ghost n = given.len() as int;
    assert(event_views(merged@) =~= event_steps(all.take(0)));
    while rest.len() > 0
        invariant
            n == given.len(),
            all == event_views(given),
            rest@.len() <= n,
            forall|k: int| 0 <= k < rest@.len() ==> #[trigger] rest@[k] == given[n - 1 - k],
            event_views(merged@) == event_steps(all.take(n - rest@.len())),
        decreases rest.len(),
    {
        let ghost at = n - rest@.len();
        let ghost front = event_views(merged@);
        proof {
            assert(rest@[rest@.len() - 1] == given[at]);
            assert(all.take(at + 1).drop_last() =~= all.take(at));
            assert(all.take(at + 1).last() == given[at]@);
        }
        if let Some(event) = rest.pop() {
            let ghost view = event@;
            let mut joins: bool = false;
            if merged.len() > 0 {
                assert(front.last() == merged@.last()@);
                joins = merged[merged.len() - 1].line == event.line;
            }
            if joins {
                if let Some(previous) = merged.pop() {
                    assert(event_views(merged@) =~= front.drop_last());
                    if previous.kind == LineKind::Match && event.kind == LineKind::Match {
                        let takes_text: bool = previous.text.len() == 0 && event.text.len() > 0;
                        let mut subs: Vec<SubMatch> = previous.submatches;
                        let mut i: usize = 0;
                        let ghost own = subs@;
                        assert(own + event.submatches@.take(0) =~= own);
                        while i < event.submatches.len()
                            invariant
                                i <= event.submatches.len(),
                                subs@ == own + event.submatches@.take(i as int),
                            decreases event.submatches.len() - i,
                        {
                            subs.push(event.submatches[i]);
                            assert(subs@ =~= own + event.submatches@.take(i + 1));
                            i = i + 1;
                        }
                        assert(event.submatches@.take(i as int) =~= event.submatches@);
                        let submatches = drop_repeats(stable_sort(subs));
                        let joined = LineEvent {
                            line: previous.line,
                            kind: LineKind::Match,
                            offset: if takes_text { event.offset } else { previous.offset },
                            text: if takes_text { event.text } else { previous.text },
                            submatches,
                        };
                        let ghost joined_view = joined@;
                        merged.push(joined);
                        assert(event_views(merged@) =~= front.drop_last().push(joined_view));
                        assert(joined_view =~= event_step(front, view).last());
                        assert(event_views(merged@) =~= event_step(front, view));
                    } else if previous.kind == LineKind::Context && event.kind == LineKind::Match {
                        merged.push(event);
                        assert(event_views(merged@) =~= front.drop_last().push(view));
                    } else {
                        merged.push(previous);
                        assert(event_views(merged@) =~= front);
                    }
                }
            } else {
                merged.push(event);
                assert(event_views(merged@) =~= front.push(view));
            }
            assert(event_views(merged@) =~= event_step(front, view));
        }
    }
    assert(all.take(n) =~= all);
    proof {
        merged_lines_are_told(events@);
    }
    merged
}

/// Merged events are in order of their lines, one for each line.
pub proof fn merged_lines_ascend(events: Seq<LineEvent>, i: int, j: int)
    requires
        0 <= i < j < merged_events(events).len(),
    ensures
        merged_events(events)[i].line < merged_events(events)[j].line,
{
    let sorted = crate::sorting::sort_items(events);
    crate::sorting::sorting_orders_and_keeps(events);
    let views = event_views(sorted);
    assert forall|a: int, b: int| 0 <= a < b < views.len() implies (#[trigger] views[a]).line <= (
    #[trigger] views[b]).line by {
        assert(!crate::sorting::key_less(sorted[b].key(), sorted[a].key()));
    }
    lemma_steps_ascend(views);
}

proof fn lemma_steps_ascend(events: Seq<EventView>)
    requires
        forall|a: int, b: int|
            0 <= a < b < events.len() ==> (#[trigger] events[a]).line <= (#[trigger] events[b]).line,
    ensures
        forall|a: int, b: int|
            0 <= a < b < event_steps(events).len() ==> (#[trigger] event_steps(events)[a]).line < (
            #[trigger] event_steps(events)[b]).line,
        events.len() > 0 ==> event_steps(events).len() > 0 && event_steps(events).last().line
            == events.last().line,
    decreases events.len(),
{
    if events.len() > 0 {
        let rest = events.drop_last();
        assert forall|a: int, b: int| 0 <= a < b < rest.len() implies (#[trigger] rest[a]).line <= (
        #[trigger] rest[b]).line by {
            assert(rest[a] == events[a] && rest[b] == events[b]);
        }
        lemma_steps_ascend(rest);
        let front = event_steps(rest);
        let all = event_steps(events);
        let n = events.len() - 1;
        if n > 0 {
            assert(events[n - 1].line <= events[n].line);
        }
        assert forall|a: int, b: int| 0 <= a < b < all.len() implies (#[trigger] all[a]).line < (
        #[trigger] all[b]).line by {
            assert(all[a] == front[a]);
            if b < front.len() {
                assert(front[a].line < front[b].line);
            } else {
                if a < front.len() - 1 {
                    assert(front[a].line < front[front.len() - 1].line);
                }
            }
        }
    }
}

/// Event `a` is a match on a line.
pub open spec fn match_on(events: Seq<EventView>, line: u64, a: int) -> bool {
    0 <= a < events.len() && events[a].line == line && events[a].kind == LineKind::Match
}

/// Event `a` is on a line.
pub open spec fn event_on(events: Seq<EventView>, line: u64, a: int) -> bool {
    0 <= a < events.len() && events[a].line == line
}

/// A submatch is one of event `a`.
pub open spec fn shows_sub(events: Seq<EventView>, a: int, sub: SubMatch) -> bool {
    exists|k: int| 0 <= k < events[a].submatches.len() && #[trigger] events[a].submatches[k] == sub
}

/// Submatches are in order of their places, each once.
pub open spec fn subs_ascend(subs: Seq<SubMatch>) -> bool {
    forall|i: int, j: int|
        0 <= i < j < subs.len() ==> (#[trigger] subs[i]).start < (#[trigger] subs[j]).start
            || subs[i].start == subs[j].start && subs[i].end < subs[j].end
}

/// A line is a match if and only if one of its events is.
pub open spec fn kind_told(events: Seq<EventView>, told: EventView) -> bool {
    told.kind == LineKind::Match <==> exists|a: int| #[trigger] match_on(events, told.line, a)
}

/// The text and the place of a line are those of one of its events of the same kind.
pub open spec fn text_told(events: Seq<EventView>, told: EventView) -> bool {
    exists|a: int| #[trigger]
        event_on(events, told.line, a) && events[a].kind == told.kind && events[a].offset
            == told.offset && events[a].text == told.text
}

/// None of these events starts earlier; where the line is a match, events with a text come first.
pub open spec fn first_told(events: Seq<EventView>, told: EventView) -> bool {
    &&& forall|a: int| #[trigger]
        event_on(events, told.line, a) && events[a].kind == told.kind && (told.kind
            == LineKind::Context || events[a].text.len() > 0 || told.text.len() == 0)
            ==> told.offset <= events[a].offset
    &&& told.kind == LineKind::Match && told.text.len() == 0 ==> forall|a: int| #[trigger]
        match_on(events, told.line, a) ==> events[a].text.len() == 0
}

/// The submatches of a match are exactly those of the matches on its line.
pub open spec fn subs_told(events: Seq<EventView>, told: EventView) -> bool {
    told.kind == LineKind::Match ==> forall|sub: SubMatch| #[trigger]
        told.submatches.contains(sub) <==> exists|a: int|
            match_on(events, told.line, a) && #[trigger] shows_sub(events, a, sub)
}

/// Where a line has a single match, it is that match.
pub open spec fn match_told(events: Seq<EventView>, told: EventView) -> bool {
    forall|a: int| #[trigger]
        match_on(events, told.line, a) && (forall|b: int| #[trigger]
            match_on(events, told.line, b) ==> b == a) ==> told == events[a]
}

/// Where a line has a single event, it is that event.
pub open spec fn event_told(events: Seq<EventView>, told: EventView) -> bool {
    forall|a: int| #[trigger]
        event_on(events, told.line, a) && (forall|b: int| #[trigger]
            event_on(events, told.line, b) ==> b == a) ==> told == events[a]
}

/// Where a line has several matches, its submatches are in order, each once.
pub open spec fn order_told(events: Seq<EventView>, told: EventView) -> bool {
    (exists|a: int, b: int| #[trigger]
        match_on(events, told.line, a) && #[trigger] match_on(events, told.line, b) && a != b)
        ==> subs_ascend(told.submatches)
}

/// `told` is what the given events say of its line. It is a match if and only if one of them is. The
/// submatches of a match are exactly those of the matches on the line; its text and its place are
/// those of one of these, of the first that has a text, if any has. Where the line has a single match,
/// or a single event, `told` is that event. A line of context is the first event of its line.
#[verifier::opaque]
pub open spec fn line_told(events: Seq<EventView>, told: EventView) -> bool {
    &&& kind_told(events, told)
    &&& text_told(events, told)
    &&& first_told(events, told)
    &&& subs_told(events, told)
    &&& match_told(events, told)
    &&& event_told(events, told)
    &&& order_told(events, told)
}

/// Without repeats, submatches in order ascend, and the same are there.
proof fn lemma_unrepeated(subs: Seq<SubMatch>)
    requires
        crate::sorting::in_key_order(subs),
    ensures
        subs_ascend(unrepeated(subs)),
        forall|sub: SubMatch| #[trigger]
            unrepeated(subs).contains(sub) <==> subs.contains(sub),
        subs.len() > 0 ==> unrepeated(subs).len() > 0 && unrepeated(subs).last() == subs.last(),
    decreases subs.len(),
{
    let all = unrepeated(subs);
    if subs.len() > 0 {
        let n = subs.len() - 1;
        let rest = subs.drop_last();
        let front = unrepeated(rest);
        assert(crate::sorting::in_key_order(rest)) by {
            assert forall|i: int, j: int| 0 <= i < j < rest.len() implies !crate::sorting::key_less(
                (#[trigger] rest[j]).key(),
                (#[trigger] rest[i]).key(),
            ) by {
                assert(rest[i] == subs[i] && rest[j] == subs[j]);
            }
        }
        lemma_unrepeated(rest);
        if n > 0 {
            assert(!crate::sorting::key_less(subs[n].key(), subs[n - 1].key()));
            assert(rest.last() == subs[n - 1]);
        }
        assert forall|sub: SubMatch| #[trigger] all.contains(sub) <==> subs.contains(sub) by {
            if all.contains(sub) {
                let k = choose|k: int| 0 <= k < all.len() && all[k] == sub;
                if k < front.len() {
                    assert(front[k] == sub);
                    assert(front.contains(sub));
                    assert(rest.contains(sub));
                    let j = choose|j: int| 0 <= j < rest.len() && rest[j] == sub;
                    assert(subs[j] == sub);
                } else {
                    assert(subs[n] == sub);
                }
            }
            if subs.contains(sub) {
                let k = choose|k: int| 0 <= k < subs.len() && subs[k] == sub;
                if k < n {
                    assert(rest[k] == sub);
                    assert(rest.contains(sub));
                    assert(front.contains(sub));
                    let j = choose|j: int| 0 <= j < front.len() && front[j] == sub;
                    assert(all[j] == sub);
                } else {
                    assert(all[all.len() - 1] == sub);
                }
            }
        }
        assert forall|i: int, j: int| 0 <= i < j < all.len() implies (#[trigger] all[i]).start < (
        #[trigger] all[j]).start || all[i].start == all[j].start && all[i].end < all[j].end by {
            if j < front.len() {
                assert(all[i] == front[i] && all[j] == front[j]);
            } else {
                let l = front.len() - 1;
                assert(all[i] == front[i]);
                assert(front[l] == subs[n - 1]);
                if i < l {
                    assert(front[i].start < front[l].start || front[i].start == front[l].start
                        && front[i].end < front[l].end);
                }
            }
        }
    } else {
        assert(all =~= subs);
    }
}

/// Events are in order: by line, on a line by offset, and there matches ahead of context.
spec fn views_ordered(events: Seq<EventView>) -> bool {
    forall|a: int, b: int|
        0 <= a < b < events.len() ==> {
            let x = #[trigger] events[a];
            let y = #[trigger] events[b];
            x.line < y.line || x.line == y.line && (x.offset < y.offset || x.offset == y.offset && (
            x.kind == LineKind::Match || y.kind == LineKind::Context))
        }
}

/// An event of another line says nothing of a line.
proof fn lemma_told_before(events: Seq<EventView>, told: EventView)
    requires
        events.len() > 0,
        line_told(events.drop_last(), told),
        events.last().line != told.line,
    ensures
        line_told(events, told),
{
    reveal(line_told);
    let rest = events.drop_last();
    let line = told.line;
    assert forall|a: int| #[trigger] match_on(events, line, a) <==> match_on(rest, line, a) by {}
    assert forall|a: int| #[trigger] event_on(events, line, a) <==> event_on(rest, line, a) by {}
    assert forall|a: int| event_on(rest, line, a) implies #[trigger] rest[a] == events[a] by {}
    let w = choose|a: int| #[trigger]
        event_on(rest, line, a) && rest[a].kind == told.kind && rest[a].offset == told.offset
            && rest[a].text == told.text;
    assert(event_on(events, line, w) && events[w].text == told.text);
    assert forall|sub: SubMatch| told.kind == LineKind::Match implies (
    #[trigger] told.submatches.contains(sub) <==> exists|a: int|
        match_on(events, line, a) && #[trigger] shows_sub(events, a, sub)) by {
        if exists|a: int| match_on(rest, line, a) && #[trigger] shows_sub(rest, a, sub) {
            let a = choose|a: int| match_on(rest, line, a) && #[trigger] shows_sub(rest, a, sub);
            assert(shows_sub(events, a, sub));
        }
        if exists|a: int| match_on(events, line, a) && #[trigger] shows_sub(events, a, sub) {
            let a = choose|a: int|
                match_on(events, line, a) && #[trigger] shows_sub(events, a, sub);
            assert(shows_sub(rest, a, sub));
        }
    }
    assert forall|a: int| #[trigger]
        match_on(events, line, a) && (forall|b: int| #[trigger]
            match_on(events, line, b) ==> b == a) implies told == events[a] by {
        assert(match_on(rest, line, a));
        assert forall|b: int| #[trigger] match_on(rest, line, b) implies b == a by {
            assert(match_on(events, line, b));
        }
    }
    assert forall|a: int| #[trigger]
        event_on(events, line, a) && (forall|b: int| #[trigger]
            event_on(events, line, b) ==> b == a) implies told == events[a] by {
        assert(event_on(rest, line, a));
        assert forall|b: int| #[trigger] event_on(rest, line, b) implies b == a by {
            assert(event_on(events, line, b));
        }
    }
    if exists|a: int, b: int| #[trigger]
        match_on(events, line, a) && #[trigger] match_on(events, line, b) && a != b {
        let (a, b) = choose|a: int, b: int| #[trigger]
            match_on(events, line, a) && #[trigger] match_on(events, line, b) && a != b;
        assert(match_on(rest, line, a) && match_on(rest, line, b));
    }
    if told.kind == LineKind::Match {
        let a = choose|a: int| #[trigger] match_on(rest, line, a);
        assert(match_on(events, line, a));
    }
}

/// The first event of a line says it alone.
proof fn lemma_told_first(events: Seq<EventView>)
    requires
        events.len() > 0,
        forall|a: int| 0 <= a < events.len() - 1 ==> (#[trigger] events[a]).line != events.last().line,
    ensures
        line_told(events, events.last()),
{
    reveal(line_told);
    let n = events.len() - 1;
    let told = events.last();
    let line = told.line;
    assert(event_on(events, line, n));
    assert forall|a: int| #[trigger] event_on(events, line, a) implies a == n by {}
    assert forall|a: int| #[trigger] match_on(events, line, a) implies a == n by {}
    if told.kind == LineKind::Match {
        assert(match_on(events, line, n));
    }
    assert forall|sub: SubMatch| told.kind == LineKind::Match implies (
    #[trigger] told.submatches.contains(sub) <==> exists|a: int|
        match_on(events, line, a) && #[trigger] shows_sub(events, a, sub)) by {
        if told.submatches.contains(sub) {
            let k = choose|k: int| 0 <= k < told.submatches.len() && told.submatches[k] == sub;
            assert(events[n].submatches[k] == sub);
            assert(shows_sub(events, n, sub));
        }
    }
}

/// A match behind a match joins it.
#[verifier::spinoff_prover]
proof fn lemma_told_matches(events: Seq<EventView>, last: EventView, told: EventView)
    requires
        events.len() > 0,
        views_ordered(events),
        line_told(events.drop_last(), last),
        events.last().line == last.line,
        last.kind == LineKind::Match,
        events.last().kind == LineKind::Match,
        told.line == last.line,
        told.kind == LineKind::Match,
        told.submatches == unrepeated(
            crate::sorting::sort_items(last.submatches + events.last().submatches),
        ),
        if last.text.len() == 0 && events.last().text.len() > 0 {
            told.offset == events.last().offset && told.text == events.last().text
        } else {
            told.offset == last.offset && told.text == last.text
        },
    ensures
        line_told(events, told),
{
    reveal(line_told);
    let n = events.len() - 1;
    let rest = events.drop_last();
    let event = events.last();
    let line = last.line;
    let w = choose|a: int| #[trigger]
        event_on(rest, line, a) && rest[a].kind == last.kind && rest[a].offset == last.offset
            && rest[a].text == last.text;
    assert(events[n] == event && events[w] == rest[w]);
    assert(match_on(events, line, w) && match_on(events, line, n) && match_on(rest, line, w));
    assert(event_on(events, line, w) && event_on(events, line, n));
    assert(kind_told(events, told));
    assert(text_told(events, told));
    assert(first_told(events, told)) by {
        assert(events[w].offset <= events[n].offset);
        assert forall|a: int| #[trigger]
            event_on(events, line, a) && events[a].kind == told.kind && (events[a].text.len() > 0
                || told.text.len() == 0) implies told.offset <= events[a].offset by {
            if a != n {
                assert(event_on(rest, line, a) && rest[a] == events[a]);
                assert(match_on(rest, line, a));
            }
        }
        assert forall|a: int| told.text.len() == 0 && #[trigger] match_on(events, line, a)
            implies events[a].text.len() == 0 by {
            if a != n {
                assert(match_on(rest, line, a) && rest[a] == events[a]);
            }
        }
    }
    assert(subs_told(events, told)) by {
        let both = last.submatches + event.submatches;
        let sorted = crate::sorting::sort_items(both);
        crate::sorting::sorting_orders_and_keeps(both);
        lemma_unrepeated(sorted);
        assert forall|sub: SubMatch| #[trigger] told.submatches.contains(sub) <==> exists|a: int|
            match_on(events, line, a) && #[trigger] shows_sub(events, a, sub) by {
            assert(sorted.contains(sub) <==> both.contains(sub));
            if both.contains(sub) {
                let k = choose|k: int| 0 <= k < both.len() && both[k] == sub;
                if k < last.submatches.len() {
                    assert(last.submatches[k] == sub);
                    assert(last.submatches.contains(sub));
                    let a = choose|a: int|
                        match_on(rest, line, a) && #[trigger] shows_sub(rest, a, sub);
                    assert(events[a] == rest[a]);
                    assert(match_on(events, line, a) && shows_sub(events, a, sub));
                } else {
                    assert(events[n].submatches[k - last.submatches.len()] == sub);
                    assert(shows_sub(events, n, sub));
                }
            }
            if exists|a: int| match_on(events, line, a) && #[trigger] shows_sub(events, a, sub) {
                let a = choose|a: int|
                    match_on(events, line, a) && #[trigger] shows_sub(events, a, sub);
                if a == n {
                    let k = choose|k: int|
                        0 <= k < events[n].submatches.len() && #[trigger] events[n].submatches[k]
                            == sub;
                    assert(both[last.submatches.len() + k] == sub);
                } else {
                    assert(events[a] == rest[a]);
                    assert(match_on(rest, line, a) && shows_sub(rest, a, sub));
                    assert(last.submatches.contains(sub));
                    let k = choose|k: int|
                        0 <= k < last.submatches.len() && last.submatches[k] == sub;
                    assert(both[k] == sub);
                }
            }
        }
    }
    assert(order_told(events, told)) by {
        let both = last.submatches + event.submatches;
        crate::sorting::sorting_orders_and_keeps(both);
        lemma_unrepeated(crate::sorting::sort_items(both));
    }
    assert(match_told(events, told));
    assert(event_told(events, told));
}

/// A match behind context takes its place.
#[verifier::spinoff_prover]
proof fn lemma_told_match_first(events: Seq<EventView>, last: EventView)
    requires
        events.len() > 0,
        line_told(events.drop_last(), last),
        events.last().line == last.line,
        last.kind == LineKind::Context,
        events.last().kind == LineKind::Match,
    ensures
        line_told(events, events.last()),
{
    reveal(line_told);
    let n = events.len() - 1;
    let rest = events.drop_last();
    let told = events.last();
    let line = last.line;
    let w = choose|a: int| #[trigger]
        event_on(rest, line, a) && rest[a].kind == last.kind && rest[a].offset == last.offset
            && rest[a].text == last.text;
    assert(events[n] == told && events[w] == rest[w]);
    assert(event_on(events, line, w) && event_on(events, line, n) && match_on(events, line, n));
    assert forall|a: int| #[trigger] match_on(events, line, a) implies a == n by {
        if a != n {
            assert(match_on(rest, line, a));
        }
    }
    assert(first_told(events, told)) by {
        assert forall|a: int| #[trigger]
            event_on(events, line, a) && events[a].kind == told.kind implies a == n by {
            assert(match_on(events, line, a));
        }
    }
    assert(subs_told(events, told)) by {
        assert forall|sub: SubMatch| #[trigger] told.submatches.contains(sub) <==> exists|a: int|
            match_on(events, line, a) && #[trigger] shows_sub(events, a, sub) by {
            if told.submatches.contains(sub) {
                let k = choose|k: int|
                    0 <= k < told.submatches.len() && told.submatches[k] == sub;
                assert(events[n].submatches[k] == sub);
                assert(shows_sub(events, n, sub));
            }
        }
    }
    assert(kind_told(events, told));
    assert(text_told(events, told));
    assert(match_told(events, told));
    assert(event_told(events, told));
    assert(order_told(events, told));
}

/// Context behind context changes nothing.
#[verifier::spinoff_prover]
proof fn lemma_told_context_stays(events: Seq<EventView>, last: EventView)
    requires
        events.len() > 0,
        last.offset <= events.last().offset,
        line_told(events.drop_last(), last),
        events.last().line == last.line,
        last.kind == LineKind::Context,
        events.last().kind == LineKind::Context,
    ensures
        line_told(events, last),
{
    assert(kind_told(events.drop_last(), last) && text_told(events.drop_last(), last) && first_told(
        events.drop_last(),
        last,
    )) by {
        reveal(line_told);
    }
    let n = events.len() - 1;
    let rest = events.drop_last();
    let line = last.line;
    let w = choose|a: int| #[trigger]
        event_on(rest, line, a) && rest[a].kind == last.kind && rest[a].offset == last.offset
            && rest[a].text == last.text;
    assert(events[w] == rest[w]);
    assert(event_on(events, line, w) && event_on(events, line, n));
    assert(forall|a: int| #[trigger] match_on(events, line, a) ==> match_on(rest, line, a));
    assert(forall|a: int| !(#[trigger] match_on(rest, line, a)));
    assert(first_told(events, last)) by {
        assert forall|a: int| #[trigger]
            event_on(events, line, a) && events[a].kind == last.kind implies last.offset
            <= events[a].offset by {
            if a != n {
                assert(event_on(rest, line, a) && rest[a] == events[a]);
            }
        }
    }
    assert(kind_told(events, last));
    assert(text_told(events, last));
    assert(match_told(events, last));
    assert(event_told(events, last)) by {
        assert forall|a: int| #[trigger]
            event_on(events, line, a) && (forall|b: int| #[trigger]
                event_on(events, line, b) ==> b == a) implies last == events[a] by {
            assert(w == a && n == a);
        }
    }
    assert(order_told(events, last));
    assert(subs_told(events, last));
    reveal(line_told);
}

/// Another event of a line joins what was told of it.
proof fn lemma_told_joined(events: Seq<EventView>, last: EventView)
    requires
        events.len() > 0,
        views_ordered(events),
        line_told(events.drop_last(), last),
        events.last().line == last.line,
    ensures
        line_told(events, event_step(seq![last], events.last())[0]),
        event_step(seq![last], events.last())[0].line == last.line,
        event_step(seq![last], events.last()).len() == 1,
{
    let event = events.last();
    let told = event_step(seq![last], event)[0];
    assert(seq![last].drop_last() =~= Seq::empty());
    if last.kind == LineKind::Match {
        if event.kind == LineKind::Match {
            lemma_told_matches(events, last, told);
        } else {
            lemma_told_match_stays(events, last);
        }
    } else if event.kind == LineKind::Match {
        lemma_told_match_first(events, last);
    } else {
        assert(last.offset <= event.offset) by {
            reveal(line_told);
            let rest = events.drop_last();
            let w = choose|a: int| #[trigger]
                event_on(rest, last.line, a) && rest[a].kind == last.kind && rest[a].offset
                    == last.offset && rest[a].text == last.text;
            assert(events[w] == rest[w]);
            assert(events[w].offset <= events[events.len() - 1].offset);
        }
        lemma_told_context_stays(events, last);
    }
}

/// Context behind a match changes nothing.
proof fn lemma_told_match_stays(events: Seq<EventView>, last: EventView)
    requires
        events.len() > 0,
        line_told(events.drop_last(), last),
        events.last().line == last.line,
        last.kind == LineKind::Match,
        events.last().kind == LineKind::Context,
    ensures
        line_told(events, last),
{
    reveal(line_told);
    let n = events.len() - 1;
    let rest = events.drop_last();
    let line = last.line;
    assert forall|a: int| #[trigger] match_on(events, line, a) <==> match_on(rest, line, a) by {}
    let w = choose|a: int| #[trigger]
        event_on(rest, line, a) && rest[a].kind == last.kind && rest[a].offset == last.offset
            && rest[a].text == last.text;
    assert(match_on(rest, line, w));
    assert(match_on(events, line, w));
    assert(event_on(events, line, w) && event_on(events, line, n) && events[w] == rest[w]);
    assert forall|a: int| #[trigger]
        event_on(events, line, a) && events[a].kind == LineKind::Match && (events[a].text.len() > 0
            || last.text.len() == 0) implies last.offset <= events[a].offset by {
        assert(event_on(rest, line, a) && rest[a] == events[a]);
    }
    assert forall|sub: SubMatch| #[trigger] last.submatches.contains(sub) <==> exists|a: int|
        match_on(events, line, a) && #[trigger] shows_sub(events, a, sub) by {
        if exists|a: int| match_on(rest, line, a) && #[trigger] shows_sub(rest, a, sub) {
            let a = choose|a: int| match_on(rest, line, a) && #[trigger] shows_sub(rest, a, sub);
            assert(shows_sub(events, a, sub));
        }
        if exists|a: int| match_on(events, line, a) && #[trigger] shows_sub(events, a, sub) {
            let a = choose|a: int|
                match_on(events, line, a) && #[trigger] shows_sub(events, a, sub);
            assert(shows_sub(rest, a, sub));
        }
    }
    assert forall|a: int| #[trigger]
        match_on(events, line, a) && (forall|b: int| #[trigger]
            match_on(events, line, b) ==> b == a) implies last == events[a] by {
        assert(match_on(rest, line, a));
        assert forall|b: int| #[trigger] match_on(rest, line, b) implies b == a by {
            assert(match_on(events, line, b));
        }
    }
    if exists|a: int, b: int| #[trigger]
        match_on(events, line, a) && #[trigger] match_on(events, line, b) && a != b {
        let (a, b) = choose|a: int, b: int| #[trigger]
            match_on(events, line, a) && #[trigger] match_on(events, line, b) && a != b;
        assert(match_on(rest, line, a) && match_on(rest, line, b));
    }
    assert(line_told(events, last));
}

proof fn lemma_steps_told(events: Seq<EventView>)
    requires
        views_ordered(events),
    ensures
        forall|i: int|
            0 <= i < event_steps(events).len() ==> line_told(
                events,
                #[trigger] event_steps(events)[i],
            ),
        forall|a: int|
            0 <= a < events.len() ==> exists|i: int|
                0 <= i < event_steps(events).len() && (#[trigger] event_steps(events)[i]).line
                    == (#[trigger] events[a]).line,
    decreases events.len(),
{
    if events.len() > 0 {
        let n = events.len() - 1;
        let rest = events.drop_last();
        let front = event_steps(rest);
        let all = event_steps(events);
        let event = events.last();
        assert forall|a: int, b: int| 0 <= a < b < rest.len() implies {
            let x = #[trigger] rest[a];
            let y = #[trigger] rest[b];
            x.line < y.line || x.line == y.line && (x.offset < y.offset || x.offset == y.offset && (
            x.kind == LineKind::Match || y.kind == LineKind::Context))
        } by {
            assert(rest[a] == events[a] && rest[b] == events[b]);
        }
        lemma_steps_told(rest);
        lemma_steps_ascend(rest);
        let joins = front.len() > 0 && front.last().line == event.line;
        assert forall|i: int| 0 <= i < all.len() implies line_told(events, #[trigger] all[i]) by {
            if joins {
                let l = front.len() - 1;
                if i < l {
                    assert(all[i] == front[i]);
                    assert(front[i].line < front[l].line);
                    lemma_told_before(events, front[i]);
                } else {
                    lemma_told_joined(events, front[l]);
                    assert(all[i] == event_step(seq![front[l]], event)[0]);
                }
            } else if i < front.len() {
                assert(all[i] == front[i]);
                if n > 0 {
                    assert(events[n - 1].line <= events[n].line);
                }
                if i < front.len() - 1 {
                    assert(front[i].line < front[front.len() - 1].line);
                }
                lemma_told_before(events, front[i]);
            } else {
                assert forall|a: int| 0 <= a < n implies (#[trigger] events[a]).line
                    != event.line by {
                    assert(rest.last() == events[n - 1]);
                    assert(events[n - 1].line <= events[n].line);
                    if a < n - 1 {
                        assert(events[a].line <= events[n - 1].line);
                    }
                }
                lemma_told_first(events);
            }
        }
        assert forall|a: int| 0 <= a < events.len() implies exists|i: int|
            0 <= i < all.len() && (#[trigger] all[i]).line == (#[trigger] events[a]).line by {
            if joins {
                lemma_told_joined(events, front.last());
                assert(all[all.len() - 1].line == event.line);
            }
            if a < n {
                assert(rest[a] == events[a]);
                let i = choose|i: int|
                    0 <= i < front.len() && (#[trigger] front[i]).line == rest[a].line;
                assert(all[i].line == front[i].line);
            } else {
                assert(all[all.len() - 1].line == event.line);
            }
        }
    }
}

/// Where an event of a line stands after sorting.
proof fn lemma_event_moved(
    events: Seq<EventView>,
    sorted: Seq<EventView>,
    from: Seq<int>,
    line: u64,
    a: int,
) -> (k: int)
    requires
        crate::sorting::rearranges(from, events, sorted),
        event_on(events, line, a),
    ensures
        event_on(sorted, line, k),
        match_on(events, line, a) ==> match_on(sorted, line, k),
        from[k] == a,
        sorted[k] == events[a],
{
    assert(from.contains(a));
    choose|k: int| 0 <= k < from.len() && from[k] == a
}

/// What is told of a line does not depend on the order of the events.
#[verifier::spinoff_prover]
#[verifier::rlimit(30)]
proof fn lemma_told_in_any_order(
    events: Seq<EventView>,
    sorted: Seq<EventView>,
    from: Seq<int>,
    told: EventView,
)
    requires
        crate::sorting::rearranges(from, events, sorted),
        line_told(sorted, told),
    ensures
        line_told(events, told),
{
    reveal(line_told);
    let line = told.line;
    assert(kind_told(events, told)) by {
        if told.kind == LineKind::Match {
            let k = choose|k: int| #[trigger] match_on(sorted, line, k);
            assert(match_on(events, line, from[k]));
        }
        if exists|a: int| #[trigger] match_on(events, line, a) {
            let a = choose|a: int| #[trigger] match_on(events, line, a);
            let k = lemma_event_moved(events, sorted, from, line, a);
            assert(match_on(sorted, line, k));
        }
    }
    assert(text_told(events, told)) by {
        let w = choose|k: int| #[trigger]
            event_on(sorted, line, k) && sorted[k].kind == told.kind && sorted[k].offset
                == told.offset && sorted[k].text == told.text;
        assert(event_on(events, line, from[w]));
    }
    assert(first_told(events, told)) by {
        assert forall|a: int| #[trigger]
            event_on(events, line, a) && events[a].kind == told.kind && (told.kind
                == LineKind::Context || events[a].text.len() > 0 || told.text.len() == 0)
            implies told.offset <= events[a].offset by {
            let k = lemma_event_moved(events, sorted, from, line, a);
        }
        assert forall|a: int|
            told.kind == LineKind::Match && told.text.len() == 0 && #[trigger] match_on(
                events,
                line,
                a,
            ) implies events[a].text.len() == 0 by {
            let k = lemma_event_moved(events, sorted, from, line, a);
        }
    }
    assert(subs_told(events, told)) by {
        assert forall|sub: SubMatch| told.kind == LineKind::Match implies (
        #[trigger] told.submatches.contains(sub) <==> exists|a: int|
            match_on(events, line, a) && #[trigger] shows_sub(events, a, sub)) by {
            if exists|k: int| match_on(sorted, line, k) && #[trigger] shows_sub(sorted, k, sub) {
                let k = choose|k: int|
                    match_on(sorted, line, k) && #[trigger] shows_sub(sorted, k, sub);
                assert(events[from[k]] == sorted[k]);
                assert(match_on(events, line, from[k]) && shows_sub(events, from[k], sub));
            }
            if exists|a: int| match_on(events, line, a) && #[trigger] shows_sub(events, a, sub) {
                let a = choose|a: int|
                    match_on(events, line, a) && #[trigger] shows_sub(events, a, sub);
                let k = lemma_event_moved(events, sorted, from, line, a);
                assert(match_on(sorted, line, k) && shows_sub(sorted, k, sub));
            }
        }
    }
    assert(match_told(events, told)) by {
        assert forall|a: int| #[trigger]
            match_on(events, line, a) && (forall|b: int| #[trigger]
                match_on(events, line, b) ==> b == a) implies told == events[a] by {
            let k = lemma_event_moved(events, sorted, from, line, a);
            assert forall|j: int| #[trigger] match_on(sorted, line, j) implies j == k by {
                assert(match_on(events, line, from[j]));
            }
        }
    }
    assert(event_told(events, told)) by {
        assert forall|a: int| #[trigger]
            event_on(events, line, a) && (forall|b: int| #[trigger]
                event_on(events, line, b) ==> b == a) implies told == events[a] by {
            let k = lemma_event_moved(events, sorted, from, line, a);
            assert forall|j: int| #[trigger] event_on(sorted, line, j) implies j == k by {
                assert(event_on(events, line, from[j]));
            }
        }
    }
    assert(order_told(events, told)) by {
        if exists|a: int, b: int| #[trigger]
            match_on(events, line, a) && #[trigger] match_on(events, line, b) && a != b {
            let (a, b) = choose|a: int, b: int| #[trigger]
                match_on(events, line, a) && #[trigger] match_on(events, line, b) && a != b;
            let j = lemma_event_moved(events, sorted, from, line, a);
            let k = lemma_event_moved(events, sorted, from, line, b);
            assert(match_on(sorted, line, j) && match_on(sorted, line, k) && j != k);
        }
    }
}

/// `merged` is what `events` say of their lines: every line that has an event is told once, in order
/// of the lines, and is what its events say.
pub open spec fn lines_told(events: Seq<EventView>, merged: Seq<EventView>) -> bool {
    &&& forall|i: int| 0 <= i < merged.len() ==> line_told(events, #[trigger] merged[i])
    &&& forall|i: int, j: int|
        0 <= i < j < merged.len() ==> (#[trigger] merged[i]).line < (#[trigger] merged[j]).line
    &&& forall|a: int|
        0 <= a < events.len() ==> exists|i: int|
            0 <= i < merged.len() && (#[trigger] merged[i]).line == (#[trigger] events[a]).line
}

/// Merging tells every line once, as its events say it.
pub proof fn merged_lines_are_told(events: Seq<LineEvent>)
    ensures
        lines_told(event_views(events), merged_events(events)),
{
    let sorted = crate::sorting::sort_items(events);
    let from = crate::sorting::sorting_rearranges(events);
    let views = event_views(sorted);
    let given = event_views(events);
    assert forall|a: int, b: int| 0 <= a < b < views.len() implies {
        let x = #[trigger] views[a];
        let y = #[trigger] views[b];
        x.line < y.line || x.line == y.line && (x.offset < y.offset || x.offset == y.offset && (x.kind
            == LineKind::Match || y.kind == LineKind::Context))
    } by {
        assert(!crate::sorting::key_less(sorted[b].key(), sorted[a].key()));
    }
    lemma_steps_told(views);
    let merged = merged_events(events);
    assert(crate::sorting::rearranges(from, given, views)) by {
        assert forall|k: int| 0 <= k < from.len() implies 0 <= #[trigger] from[k] < given.len()
            && views[k] == given[from[k]] by {
            assert(sorted[k] == events[from[k]]);
        }
    }
    assert forall|i: int| 0 <= i < merged.len() implies line_told(given, #[trigger] merged[i]) by {
        assert(line_told(views, event_steps(views)[i]));
        lemma_told_in_any_order(given, views, from, merged[i]);
    }
    assert forall|i: int, j: int| 0 <= i < j < merged.len() implies (#[trigger] merged[i]).line < (
    #[trigger] merged[j]).line by {
        merged_lines_ascend(events, i, j);
    }
    assert forall|a: int| 0 <= a < given.len() implies exists|i: int|
        0 <= i < merged.len() && (#[trigger] merged[i]).line == (#[trigger] given[a]).line by {
        assert(from.contains(a));
        let k = choose|k: int| 0 <= k < from.len() && from[k] == a;
        assert(views[k] == given[a]);
        let i = choose|i: int|
            0 <= i < merged.len() && (#[trigger] merged[i]).line == views[k].line;
        assert(merged[i].line == given[a].line);
    }
}

/// The lines before line `line`, which is counted from one.
pub open spec fn lines_before(line: u64) -> int {
    if line > 0 {
        line - 1
    } else {
        0
    }
}

/// Lines and offsets stay in range when the events are moved.
pub open spec fn shiftable(events: Seq<LineEvent>, region_line: u64, region_start: u64) -> bool {
    forall|k: int|
        0 <= k < events.len() ==> (#[trigger] events[k]).line + lines_before(region_line)
            <= u64::MAX && events[k].offset + region_start <= u64::MAX
}

pub open spec fn shifted_view(event: EventView, region_line: u64, region_start: u64) -> EventView {
    EventView {
        line: (event.line + lines_before(region_line)) as u64,
        offset: (event.offset + region_start) as u64,
        ..event
    }
}

/// Events of a region, where they lie in the document.
pub open spec fn shifted_views(
    events: Seq<LineEvent>,
    region_line: u64,
    region_start: u64,
) -> Seq<EventView> {
    event_views(events).map_values(|event: EventView| shifted_view(event, region_line, region_start))
}

/// Events of a region, moved to their place in the document.
pub fn shift_events(events: Vec<LineEvent>, region_line: u64, region_start: u64) -> (shifted: Vec<
    LineEvent,
>)
    requires
        shiftable(events@, region_line, region_start),
    ensures
        event_views(shifted@) == shifted_views(events@, region_line, region_start),
{
    let lines: u64 = if region_line > 0 {
        region_line - 1
    } else {
        0
    };
    let mut source = events;
    let ghost given = source@;
    let mut reversed: Vec<LineEvent> = Vec::new();
    while source.len() > 0
        invariant
            lines == lines_before(region_line),
            shiftable(given, region_line, region_start),
            source@.len() <= given.len(),
            source@ == given.take(source@.len() as int),
            reversed@.len() == given.len() - source@.len(),
            forall|k: int|
                0 <= k < reversed@.len() ==> (#[trigger] reversed@[k])@ == shifted_view(
                    given[given.len() - 1 - k]@,
                    region_line,
                    region_start,
                ),
        decreases source.len(),
    {
        let ghost at = source@.len() - 1;
        if let Some(event) = source.pop() {
            assert(event == given[at]);
            let mut moved = event;
            moved.line = moved.line + lines;
            moved.offset = moved.offset + region_start;
            reversed.push(moved);
            assert(source@ =~= given.take(source@.len() as int));
        }
    }
    let ghost backwards = reversed@;
    let mut shifted: Vec<LineEvent> = Vec::new();
    while reversed.len() > 0
        invariant
            reversed@.len() <= backwards.len(),
            reversed@ == backwards.take(reversed@.len() as int),
            shifted@.len() == backwards.len() - reversed@.len(),
            forall|k: int|
                0 <= k < shifted@.len() ==> #[trigger] shifted@[k] == backwards[backwards.len() - 1
                    - k],
        decreases reversed.len(),
    {
        if let Some(event) = reversed.pop() {
            shifted.push(event);
            assert(reversed@ =~= backwards.take(reversed@.len() as int));
        }
    }
    assert(event_views(shifted@) =~= shifted_views(events@, region_line, region_start));
    shifted
}

/// How many of the first `n` matches lie on `line`.
pub open spec fn matches_on(matches: Seq<RegionMatch>, n: int, line: u64) -> nat {
    matches.take(n).filter(|m: RegionMatch| m.line == line).len()
}

/// Match `k` is the first on its line.
pub open spec fn first_on_line(matches: Seq<RegionMatch>, k: int) -> bool {
    forall|j: int| 0 <= j < k ==> (#[trigger] matches[j]).line != matches[k].line
}

/// An event counts the first `n` matches of its line: it is of a line with a match, at that line's
/// offset, without text, and has one entry for each match or, where only lines are counted, one.
pub open spec fn counts_line(
    matches: Seq<RegionMatch>,
    n: int,
    count_matches: bool,
    event: EventView,
) -> bool {
    &&& exists|k: int|
        0 <= k < n && (#[trigger] matches[k]).line == event.line && event.offset
            == matches[k].line_offset && first_on_line(matches, k)
    &&& event.kind == LineKind::Match
    &&& event.text.len() == 0
    &&& event.submatches.len() == if count_matches {
        matches_on(matches, n, event.line)
    } else {
        1
    }
}

proof fn lemma_matches_on_step(matches: Seq<RegionMatch>, n: int, line: u64)
    requires
        0 < n <= matches.len(),
    ensures
        matches_on(matches, n, line) == matches_on(matches, n - 1, line) + if matches[n - 1].line
            == line {
            1nat
        } else {
            0
        },
{
    reveal(Seq::filter);
    assert(matches.take(n).drop_last() =~= matches.take(n - 1));
}

/// Matches in line order are counted line by line: each line with a match has one event, which counts
/// its matches, and there are no other events.
pub proof fn counted_lines_have_their_matches(
    matches: Seq<RegionMatch>,
    count_matches: bool,
    n: int,
    k: int,
)
    requires
        0 <= n <= matches.len(),
        forall|i: int, j: int|
            0 <= i < j < matches.len() ==> (#[trigger] matches[i]).line <= (#[trigger] matches[j]).line,
    ensures
        forall|e: int|
            0 <= e < count_events(matches, count_matches, n).len() ==> counts_line(
                matches,
                n,
                count_matches,
                #[trigger] count_events(matches, count_matches, n)[e],
            ),
        forall|e: int, f: int|
            0 <= e < f < count_events(matches, count_matches, n).len() ==> (#[trigger] count_events(
                matches,
                count_matches,
                n,
            )[e]).line < (#[trigger] count_events(matches, count_matches, n)[f]).line,
        0 <= k < n ==> exists|e: int|
            0 <= e < count_events(matches, count_matches, n).len() && (#[trigger] count_events(
                matches,
                count_matches,
                n,
            )[e]).line == matches[k].line,
        n > 0 ==> count_events(matches, count_matches, n).len() > 0 && count_events(
            matches,
            count_matches,
            n,
        ).last().line == matches[n - 1].line,
    decreases n,
{
    if n > 0 {
        counted_lines_have_their_matches(matches, count_matches, n - 1, k);
        let front = count_events(matches, count_matches, n - 1);
        let all = count_events(matches, count_matches, n);
        let next = matches[n - 1];
        let joins = front.len() > 0 && front.last().line == next.line;
        if n > 1 {
            assert(matches[n - 2].line <= matches[n - 1].line);
        }
        assert forall|e: int| 0 <= e < all.len() implies counts_line(
            matches,
            n,
            count_matches,
            #[trigger] all[e],
        ) by {
            lemma_matches_on_step(matches, n, all[e].line);
            if e < front.len() {
                assert(counts_line(matches, n - 1, count_matches, front[e]));
                assert(all[e].line == front[e].line);
                if e < front.len() - 1 {
                    assert(front[e].line < front[front.len() - 1].line);
                }
                let m = choose|m: int|
                    0 <= m < n - 1 && (#[trigger] matches[m]).line == front[e].line
                        && front[e].offset == matches[m].line_offset && first_on_line(matches, m);
                assert(matches[m].line == all[e].line);
            } else {
                assert(first_on_line(matches, n - 1)) by {
                    assert forall|j: int| 0 <= j < n - 1 implies (#[trigger] matches[j]).line
                        != next.line by {
                        assert(matches[j].line <= matches[n - 2].line);
                    }
                }
                assert(matches[n - 1].line == all[e].line);
                lemma_none_on(matches, n - 1, next.line);
            }
        }
        assert forall|e: int, f: int| 0 <= e < f < all.len() implies (#[trigger] all[e]).line < (
        #[trigger] all[f]).line by {
            if f < front.len() {
                assert(front[e].line < front[f].line);
            } else if e < front.len() - 1 {
                assert(front[e].line < front[front.len() - 1].line);
            }
        }
        if 0 <= k < n {
            if k < n - 1 {
                let e = choose|e: int| 0 <= e < front.len() && (#[trigger] front[e]).line == matches[k].line;
                assert(all[e].line == matches[k].line);
            } else {
                assert(all[all.len() - 1].line == matches[k].line);
            }
        }
    }
}

proof fn lemma_none_on(matches: Seq<RegionMatch>, n: int, line: u64)
    requires
        0 <= n <= matches.len(),
        forall|j: int| 0 <= j < n ==> (#[trigger] matches[j]).line != line,
    ensures
        matches_on(matches, n, line) == 0,
    decreases n,
{
    if n > 0 {
        lemma_matches_on_step(matches, n, line);
        lemma_none_on(matches, n - 1, line);
    } else {
        reveal(Seq::filter);
    }
}

/// An event of a region, told in lines and bytes of the region, is told in those of the document once
/// it is shifted: on the line that the document counts there, at the document's offset, with the same
/// text and the same places in it.
pub proof fn shifted_events_land_on_their_lines(
    region: crate::fetch::DocumentRegion,
    bytes: Seq<u8>,
    event: EventView,
)
    requires
        bytes.len() < u64::MAX,
        crate::fetch::lies_true(region, bytes),
        event.offset <= region.bytes@.len(),
        event.line == 1 + crate::lines::line_ends(region.bytes@, 0, event.offset as int),
    ensures
        ({
            let shifted = shifted_view(event, region.line, region.start);
            &&& shifted.offset == region.start + event.offset
            &&& shifted.line == 1 + crate::lines::line_ends(bytes, 0, region.start + event.offset)
            &&& shifted.kind == event.kind && shifted.text == event.text && shifted.submatches
                == event.submatches
        }),
{
    let start = region.start as int;
    let at = start + event.offset;
    let part = bytes.subrange(0, start);
    let rest = region.bytes@.subrange(0, event.offset as int);
    assert(bytes.subrange(0, at) =~= part + rest);
    vstd::seq_lib::lemma_multiset_commutative(part, rest);
    crate::lines::newlines_are_counted(bytes, 0, at);
    crate::lines::lemma_newlines_within(bytes, 0, at);
}

/// Where only lines are counted each event has one entry.
pub proof fn lemma_lines_count_once(matches: Seq<RegionMatch>, n: int)
    requires
        0 <= n <= matches.len(),
    ensures
        forall|e: int|
            0 <= e < count_events(matches, false, n).len() ==> (#[trigger] count_events(
                matches,
                false,
                n,
            )[e]).submatches.len() == 1,
    decreases n,
{
    if n > 0 {
        lemma_lines_count_once(matches, n - 1);
    }
}

} // verus!
