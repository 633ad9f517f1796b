//! Matches in documents: where they lie, their lines, and what is reported of them.

use crate::fetch::DocumentRegion;
use crate::pack::ByteRange;
use crate::sorting::{stable_sort, Keyed};
use vstd::prelude::*;

verus! {

/// A match as a program reports it: byte `start` up to `end` of the bytes that were searched.
/// Where `canonical_span_known` does not hold, a match lies there but may extend further.
#[derive(Debug, Clone, Copy, PartialEq, Eq, Structural)]
pub struct FoundMatch {
    pub pattern: usize,
    pub start: usize,
    pub end: usize,
    pub canonical_span_known: bool,
}

/// A match in a document, with its line.
#[derive(Debug, Clone, Copy, PartialEq, Eq, Structural)]
pub struct RegionMatch {
    pub pattern: usize,
    pub witness: ByteRange,
    pub line: u64,
    pub line_offset: u64,
    pub canonical_span_known: bool,
}

/// A match ordered by pattern and place.
#[derive(Debug, Clone, Copy)]
pub struct ByPattern(pub RegionMatch);

/// A match ordered by line and place.
#[derive(Debug, Clone, Copy)]
pub struct ByLine(pub RegionMatch);

impl Keyed for ByPattern {
    open spec fn key(&self) -> (int, int, int, int, int) {
        (
            self.0.pattern as int,
            self.0.witness.start as int,
            self.0.witness.end as int,
            0,
            0,
        )
    }

    fn precedes(&self, other: &ByPattern) -> (before: bool) {
        let a: RegionMatch = self.0;
        let b: RegionMatch = other.0;
        if a.pattern != b.pattern {
            a.pattern < b.pattern
        } else if a.witness.start != b.witness.start {
            a.witness.start < b.witness.start
        } else {
            a.witness.end < b.witness.end
        }
    }
}

impl Keyed for ByLine {
    open spec fn key(&self) -> (int, int, int, int, int) {
        (
            self.0.line as int,
            self.0.line_offset as int,
            self.0.witness.start as int,
            self.0.witness.end as int,
            self.0.pattern as int,
        )
    }

    fn precedes(&self, other: &ByLine) -> (before: bool) {
        let a: RegionMatch = self.0;
        let b: RegionMatch = other.0;
        if a.line != b.line {
            a.line < b.line
        } else if a.line_offset != b.line_offset {
            a.line_offset < b.line_offset
        } else if a.witness.start != b.witness.start {
            a.witness.start < b.witness.start
        } else if a.witness.end != b.witness.end {
            a.witness.end < b.witness.end
        } else {
            a.pattern < b.pattern
        }
    }
}

pub open spec fn by_pattern(matches: Seq<RegionMatch>) -> Seq<ByPattern> {
    matches.map_values(|m: RegionMatch| ByPattern(m))
}

pub open spec fn by_line(matches: Seq<RegionMatch>) -> Seq<ByLine> {
    matches.map_values(|m: RegionMatch| ByLine(m))
}

/// The two matches are of one pattern at one place.
pub open spec fn same_match(a: RegionMatch, b: RegionMatch) -> bool {
    a.pattern == b.pattern && a.witness == b.witness
}

/// Of matches that repeat the one before them, only the first.
pub open spec fn without_repeats(matches: Seq<ByPattern>) -> Seq<RegionMatch>
    decreases matches.len(),
{
    if matches.len() == 0 {
        Seq::empty()
    } else {
        let front = without_repeats(matches.drop_last());
        if front.len() > 0 && same_match(front.last(), matches.last().0) {
            front
        } else {
            front.push(matches.last().0)
        }
    }
}

pub open spec fn same_line(a: RegionMatch, b: RegionMatch) -> bool {
    a.line == b.line && a.line_offset == b.line_offset
}

/// Lines that the first `n` matches begin.
pub open spec fn lines_begun(matches: Seq<ByLine>, n: int) -> nat
    decreases n,
{
    if n <= 0 {
        0
    } else {
        lines_begun(matches, n - 1) + if n == 1 || !same_line(matches[n - 2].0, matches[n - 1].0) {
            1nat
        } else {
            0nat
        }
    }
}

/// How many matches lie in the first `limit` lines.
pub open spec fn within_lines(matches: Seq<ByLine>, limit: u64, n: int) -> int
    decreases matches.len() - n,
{
    if n >= matches.len() || lines_begun(matches, n + 1) > limit {
        n
    } else {
        within_lines(matches, limit, n + 1)
    }
}

/// The matches in order of their lines, each once, those of the first `max_count` lines.
pub open spec fn sorted_matches(matches: Seq<RegionMatch>, max_count: Option<u64>) -> Seq<
    RegionMatch,
> {
    let unique = without_repeats(crate::sorting::sort_items(by_pattern(matches)));
    let sorted = crate::sorting::sort_items(by_line(unique));
    let kept = match max_count {
        None => sorted.len() as int,
        Some(limit) => within_lines(sorted, limit, 0),
    };
    sorted.take(kept).map_values(|m: ByLine| m.0)
}

proof fn lemma_lines_begun_step(matches: Seq<ByLine>, n: int)
    requires
        0 <= n,
    ensures
        lines_begun(matches, n) <= n,
        lines_begun(matches, n) <= lines_begun(matches, n + 1) <= lines_begun(matches, n) + 1,
        n > 0 ==> lines_begun(matches, n) > 0,
    decreases n,
{
    if n > 0 {
        lemma_lines_begun_step(matches, n - 1);
    }
}

/// The matches that are reported, in order.
pub fn sort_region_matches(matches: Vec<RegionMatch>, max_count: Option<u64>) -> (sorted: Vec<
    RegionMatch,
>)
    ensures
        sorted@ == sorted_matches(matches@, max_count),
        max_count matches Some(limit) ==> first_lines(
            sorted_matches(matches@, None),
            sorted@,
            limit,
        ),
{
    let mut wrapped: Vec<ByPattern> = Vec::new();
    let mut i: usize = 0;
    while i < matches.len()
        invariant
            i <= matches.len(),
            wrapped@ == by_pattern(matches@.take(i as int)),
        decreases matches.len() - i,
    {
        wrapped.push(ByPattern(matches[i]));
        assert(wrapped@ =~= by_pattern(matches@.take(i + 1)));
        i = i + 1;
    }
    assert(matches@.take(i as int) =~= matches@);
    let ordered = stable_sort(wrapped);
    let mut unique: Vec<ByLine> = Vec::new();
    let mut k: usize = 0;
    assert(unique@ =~= by_line(without_repeats(ordered@.take(0))));
    while k < ordered.len()
        invariant
            k <= ordered.len(),
            unique@ == by_line(without_repeats(ordered@.take(k as int))),
        decreases ordered.len() - k,
    {
        let next: RegionMatch = ordered[k].0;
        let ghost front = without_repeats(ordered@.take(k as int));
        proof {
            assert(ordered@.take(k + 1).drop_last() =~= ordered@.take(k as int));
            assert(ordered@.take(k + 1).last() == ordered@[k as int]);
        }
        let mut repeats: bool = false;
        if unique.len() > 0 {
            let last: RegionMatch = unique[unique.len() - 1].0;
            assert(last == front.last());
            repeats = last.pattern == next.pattern && last.witness.start == next.witness.start
                && last.witness.end == next.witness.end;
        }
        if !repeats {
            unique.push(ByLine(next));
            assert(unique@ =~= by_line(front.push(next)));
        }
        k = k + 1;
    }
    assert(ordered@.take(k as int) =~= ordered@);
    let sorted = stable_sort(unique);
    let mut kept: Vec<RegionMatch> = Vec::new();
    let mut lines: u64 = 0;
    let mut n: usize = 0;
    let ghost goal = match max_count {
        None => sorted@.len() as int,
        Some(limit) => within_lines(sorted@, limit, 0),
    };
    proof {
        lemma_within_bound(
            sorted@,
            match max_count {
                Some(limit) => limit,
                None => 0,
            },
            0,
        );
        assert(kept@ =~= sorted@.take(0).map_values(|m: ByLine| m.0));
    }
    while n < sorted.len()
        invariant_except_break
            max_count matches Some(limit) ==> goal == within_lines(sorted@, limit, n as int),
        invariant
            n <= sorted.len(),
            lines == lines_begun(sorted@, n as int),
            lines <= n,
            kept@ == sorted@.take(n as int).map_values(|m: ByLine| m.0),
            max_count is None ==> goal == sorted@.len(),
        ensures
            n == goal,
        decreases sorted.len() - n,
    {
        let next: RegionMatch = sorted[n].0;
        proof {
            lemma_lines_begun_step(sorted@, n as int);
        }
        let begins: bool = n == 0 || sorted[n - 1].0.line != next.line || sorted[n
            - 1].0.line_offset != next.line_offset;
        match max_count {
            Some(limit) => {
                if begins && lines >= limit {
                    proof {
                        lemma_within_lines_stop(sorted@, limit, n as int);
                    }
                    break;
                }
                if !begins && lines > limit {
                    break;
                }
            },
            None => {},
        }
        if begins {
            lines = lines + 1;
        }
        kept.push(next);
        assert(kept@ =~= sorted@.take(n + 1).map_values(|m: ByLine| m.0));
        n = n + 1;
    }
    proof {
        if let Some(limit) = max_count {
            limits_count_lines(matches@, limit);
        }
    }
    kept
}

proof fn lemma_within_bound(matches: Seq<ByLine>, limit: u64, n: int)
    requires
        0 <= n <= matches.len(),
    ensures
        n <= within_lines(matches, limit, n) <= matches.len(),
    decreases matches.len() - n,
{
    if n < matches.len() && lines_begun(matches, n + 1) <= limit {
        lemma_within_bound(matches, limit, n + 1);
    }
}

proof fn lemma_within_lines_stop(matches: Seq<ByLine>, limit: u64, n: int)
    requires
        0 <= n < matches.len(),
        lines_begun(matches, n + 1) > limit,
    ensures
        within_lines(matches, limit, n) == n,
{
}

/// One of the matches is `m`.
pub open spec fn among(matches: Seq<ByPattern>, m: RegionMatch) -> bool {
    exists|j: int| 0 <= j < matches.len() && (#[trigger] matches[j]).0 == m
}

/// One of the matches is of the same pattern at the same place.
pub open spec fn has_match(matches: Seq<RegionMatch>, m: RegionMatch) -> bool {
    exists|i: int| 0 <= i < matches.len() && same_match(#[trigger] matches[i], m)
}

/// No match is of the same pattern at the same place as another.
pub open spec fn all_differ(matches: Seq<RegionMatch>) -> bool {
    forall|a: int, b: int|
        0 <= a < b < matches.len() ==> !same_match(
            #[trigger] matches[a],
            #[trigger] matches[b],
        )
}

/// Every match left was there.
proof fn lemma_repeats_from(matches: Seq<ByPattern>, i: int)
    requires
        0 <= i < without_repeats(matches).len(),
    ensures
        among(matches, without_repeats(matches)[i]),
    decreases matches.len(),
{
    let rest = matches.drop_last();
    let front = without_repeats(rest);
    let all = without_repeats(matches);
    if i < front.len() {
        assert(all[i] == front[i]);
        lemma_repeats_from(rest, i);
        let j = choose|j: int| 0 <= j < rest.len() && (#[trigger] rest[j]).0 == front[i];
        assert(matches[j].0 == all[i]);
    } else {
        assert(matches[matches.len() - 1].0 == all[i]);
    }
}

/// Every match that was there is left once.
proof fn lemma_repeats_to(matches: Seq<ByPattern>, j: int)
    requires
        0 <= j < matches.len(),
    ensures
        has_match(without_repeats(matches), matches[j].0),
    decreases matches.len(),
{
    let n = matches.len() - 1;
    let rest = matches.drop_last();
    let front = without_repeats(rest);
    let all = without_repeats(matches);
    if j < n {
        lemma_repeats_to(rest, j);
        let i = choose|i: int|
            0 <= i < front.len() && same_match(#[trigger] front[i], rest[j].0);
        assert(all[i] == front[i]);
    } else {
        assert(same_match(all[all.len() - 1], matches[n].0));
    }
}

/// The last one left is the last one there was, and none is after it.
proof fn lemma_repeats_last(matches: Seq<ByPattern>, i: int)
    requires
        crate::sorting::in_key_order(matches),
        0 <= i < without_repeats(matches).len(),
    ensures
        same_match(without_repeats(matches).last(), matches.last().0),
        !crate::sorting::key_less(matches.last().key(), ByPattern(without_repeats(matches)[i]).key()),
{
    let all = without_repeats(matches);
    lemma_repeats_from(matches, i);
    let j = choose|j: int| 0 <= j < matches.len() && (#[trigger] matches[j]).0 == all[i];
    assert(matches[j] == ByPattern(all[i]));
    let n = matches.len() - 1;
    if j < n {
        assert(!crate::sorting::key_less(matches[n].key(), matches[j].key()));
    }
}

proof fn lemma_repeats_differ(matches: Seq<ByPattern>)
    requires
        crate::sorting::in_key_order(matches),
    ensures
        all_differ(without_repeats(matches)),
    decreases matches.len(),
{
    if matches.len() > 0 {
        let n = matches.len() - 1;
        let rest = matches.drop_last();
        let front = without_repeats(rest);
        let all = without_repeats(matches);
        assert(crate::sorting::in_key_order(rest)) by {
            assert forall|i: int, j: int| 0 <= i < j < rest.len() implies !crate::sorting::key_less(
                (#[trigger] rest[j]).key(),
                (#[trigger] rest[i]).key(),
            ) by {
                assert(rest[i] == matches[i] && rest[j] == matches[j]);
            }
        }
        lemma_repeats_differ(rest);
        assert forall|a: int, b: int| 0 <= a < b < all.len() implies !same_match(
            #[trigger] all[a],
            #[trigger] all[b],
        ) by {
            assert(all[a] == front[a]);
            if b < front.len() {
                assert(all[b] == front[b]);
            } else if same_match(front[a], matches[n].0) {
                lemma_repeats_last(rest, a);
                assert(!crate::sorting::key_less(matches[n].key(), matches[n - 1].key()));
                assert(rest.last() == matches[n - 1]);
            }
        }
    }
}

/// Reported matches are matches that were found, each once, in order of their lines; without a
/// limit none is left out.
pub proof fn reported_matches_are_found(
    matches: Seq<RegionMatch>,
    max_count: Option<u64>,
    i: int,
    j: int,
)
    ensures
        ({
            let reported = sorted_matches(matches, max_count);
            &&& 0 <= i < reported.len() ==> matches.contains(reported[i])
            &&& 0 <= i < j < reported.len() ==> !same_match(reported[i], reported[j])
                && reported[i].line <= reported[j].line
            &&& 0 <= i < matches.len() && max_count is None ==> has_match(reported, matches[i])
        }),
{
    let ordered = crate::sorting::sort_items(by_pattern(matches));
    crate::sorting::sorting_orders_and_keeps(by_pattern(matches));
    lemma_repeats_differ(ordered);
    let unique = without_repeats(ordered);
    let lined = by_line(unique);
    let sorted = crate::sorting::sort_items(lined);
    crate::sorting::sorting_orders_and_keeps(lined);
    if let Some(limit) = max_count {
        lemma_within_bound(sorted, limit, 0);
    }
    let reported = sorted_matches(matches, max_count);
    if 0 <= i < reported.len() {
        let u = lemma_reported_unique(unique, sorted, i);
        lemma_repeats_from(ordered, u);
        let o = choose|o: int| 0 <= o < ordered.len() && (#[trigger] ordered[o]).0 == unique[u];
        assert(ordered.contains(ordered[o]));
        let m = choose|m: int|
            0 <= m < by_pattern(matches).len() && by_pattern(matches)[m] == ordered[o];
        assert(matches[m] == reported[i]);
    }
    if 0 <= i < j < reported.len() {
        assert(!crate::sorting::key_less(sorted[j].key(), sorted[i].key()));
        assert(lined.no_duplicates()) by {
            assert forall|a: int, b: int| 0 <= a < lined.len() && 0 <= b < lined.len() && a
                != b implies lined[a] != lined[b] by {
                if a < b {
                    assert(!same_match(unique[a], unique[b]));
                } else {
                    assert(!same_match(unique[b], unique[a]));
                }
            }
        }
        crate::sorting::sorting_keeps_distinct(lined);
        let u = lemma_reported_unique(unique, sorted, i);
        let v = lemma_reported_unique(unique, sorted, j);
        assert(sorted[i] != sorted[j]);
        if u < v {
            assert(!same_match(unique[u], unique[v]));
        } else {
            assert(u != v);
            assert(!same_match(unique[v], unique[u]));
        }
    }
    if 0 <= i < matches.len() && max_count is None {
        assert(by_pattern(matches)[i] == ByPattern(matches[i]));
        assert(by_pattern(matches).contains(ByPattern(matches[i])));
        assert(ordered.contains(ByPattern(matches[i])));
        let o = choose|o: int| 0 <= o < ordered.len() && ordered[o] == ByPattern(matches[i]);
        lemma_repeats_to(ordered, o);
        let u = choose|u: int|
            0 <= u < unique.len() && same_match(#[trigger] unique[u], ordered[o].0);
        assert(lined[u] == ByLine(unique[u]));
        assert(lined.contains(ByLine(unique[u])));
        assert(sorted.contains(ByLine(unique[u])));
        let k = choose|k: int| 0 <= k < sorted.len() && sorted[k] == ByLine(unique[u]);
        assert(reported[k] == unique[u]);
    }
}

/// The lines that matches lie on, each told by its number and where it starts.
pub open spec fn lines_of(matches: Seq<RegionMatch>) -> Set<(u64, u64)> {
    matches.map_values(|m: RegionMatch| (m.line, m.line_offset)).to_set()
}

/// Match `a` does not come behind match `b`: it is on an earlier line, or starts earlier on the same
/// line, or ends earlier, or is of an earlier pattern.
pub open spec fn not_behind(a: RegionMatch, b: RegionMatch) -> bool {
    if a.line != b.line {
        a.line < b.line
    } else if a.line_offset != b.line_offset {
        a.line_offset < b.line_offset
    } else if a.witness.start != b.witness.start {
        a.witness.start < b.witness.start
    } else if a.witness.end != b.witness.end {
        a.witness.end < b.witness.end
    } else {
        a.pattern <= b.pattern
    }
}

/// The lines of one match more.
proof fn lemma_lines_of_push(matches: Seq<RegionMatch>, m: RegionMatch)
    ensures
        lines_of(matches).finite(),
        lines_of(matches.push(m)) == lines_of(matches).insert((m.line, m.line_offset)),
{
    broadcast use vstd::seq_lib::seq_to_set_is_finite;

    let line = |m: RegionMatch| (m.line, m.line_offset);
    let front = matches.map_values(line);
    assert(matches.push(m).map_values(line) =~= front.push(line(m)));
    assert forall|l: (u64, u64)| lines_of(matches.push(m)).contains(l) <==> lines_of(
        matches,
    ).insert((m.line, m.line_offset)).contains(l) by {
        if front.contains(l) {
            let k = choose|k: int| 0 <= k < front.len() && front[k] == l;
            assert(front.push(line(m))[k] == l);
        }
        assert(front.push(line(m))[front.len() as int] == line(m));
        let grown = front.push(line(m));
        if grown.contains(l) && l != line(m) {
            let k = choose|k: int| 0 <= k < grown.len() && grown[k] == l;
            assert(front[k] == l);
        }
    }
    assert(lines_of(matches.push(m)) =~= lines_of(matches).insert((m.line, m.line_offset)));
}

/// In order of their lines, matches begin as many lines as they lie on.
proof fn lemma_lines_begun_are_lines(sorted: Seq<ByLine>, n: int)
    requires
        crate::sorting::in_key_order(sorted),
        0 <= n <= sorted.len(),
    ensures
        ({
            let held = sorted.take(n).map_values(|m: ByLine| m.0);
            &&& lines_of(held).finite()
            &&& lines_of(held).len() == lines_begun(sorted, n)
            &&& n > 0 && (n == sorted.len() || !same_line(sorted[n - 1].0, sorted[n].0))
                && n < sorted.len() ==> !lines_of(held).contains(
                (sorted[n].0.line, sorted[n].0.line_offset),
            )
        }),
    decreases n,
{
    broadcast use vstd::set::group_set_axioms;

    let held = sorted.take(n).map_values(|m: ByLine| m.0);
    let line = |m: RegionMatch| (m.line, m.line_offset);
    if n == 0 {
        assert(held.map_values(line) =~= Seq::empty());
        assert(lines_of(held) =~= Set::empty());
    } else {
        let front = sorted.take(n - 1).map_values(|m: ByLine| m.0);
        let last = sorted[n - 1].0;
        lemma_lines_begun_are_lines(sorted, n - 1);
        assert(held =~= front.push(last));
        lemma_lines_of_push(front, last);
        if n > 1 && same_line(sorted[n - 2].0, last) {
            assert(front[n - 2] == sorted[n - 2].0);
            assert(front.map_values(line)[n - 2] == line(last));
            assert(lines_of(front).contains(line(last)));
            assert(lines_of(held) =~= lines_of(front));
        } else if n == 1 {
            assert(front.map_values(line) =~= Seq::empty());
            assert(!lines_of(front).contains(line(last)));
        }
        if n < sorted.len() && !same_line(last, sorted[n].0) {
            let next = sorted[n].0;
            if lines_of(held).contains(line(next)) {
                let lines = held.map_values(line);
                assert(lines.contains(line(next)));
                let k = choose|k: int| 0 <= k < lines.len() && lines[k] == line(next);
                assert(held[k] == sorted[k].0);
                assert(!crate::sorting::key_less(sorted[n].key(), sorted[n - 1].key()));
                if k < n - 1 {
                    assert(!crate::sorting::key_less(sorted[n - 1].key(), sorted[k].key()));
                }
            }
        }
    }
}

/// Where matches that lie in the first lines end.
proof fn lemma_within_lines_are_first(sorted: Seq<ByLine>, limit: u64, n: int, i: int)
    requires
        0 <= n <= sorted.len(),
        0 <= i < sorted.len(),
        forall|k: int| 0 <= k < n ==> #[trigger] lines_begun(sorted, k + 1) <= limit,
    ensures
        i < within_lines(sorted, limit, n) <==> lines_begun(sorted, i + 1) <= limit,
    decreases sorted.len() - n,
{
    if n < sorted.len() && lines_begun(sorted, n + 1) <= limit {
        assert forall|k: int| 0 <= k < n + 1 implies #[trigger] lines_begun(sorted, k + 1)
            <= limit by {}
        lemma_within_lines_are_first(sorted, limit, n + 1, i);
    } else if i < n {
        assert(lines_begun(sorted, i + 1) <= limit);
    } else {
        lemma_lines_begun_grow(sorted, n + 1, i + 1);
    }
}

proof fn lemma_lines_begun_grow(matches: Seq<ByLine>, a: int, b: int)
    requires
        0 <= a <= b,
    ensures
        lines_begun(matches, a) <= lines_begun(matches, b),
    decreases b - a,
{
    if a < b {
        lemma_lines_begun_grow(matches, a, b - 1);
        lemma_lines_begun_step(matches, b - 1);
    }
}

/// `kept` are the matches of the first `limit` lines of `all`: a match is kept if and only if fewer
/// lines than the limit, other than its own, have a match before it.
pub open spec fn first_lines(all: Seq<RegionMatch>, kept: Seq<RegionMatch>, limit: u64) -> bool {
    &&& kept.len() <= all.len()
    &&& kept == all.take(kept.len() as int)
    &&& forall|i: int|
        0 <= i < all.len() ==> (i < kept.len() <==> lines_of(all.take(i)).remove(
            ((#[trigger] all[i]).line, all[i].line_offset),
        ).len() < limit)
}

/// A limit counts lines, not matches: of the report without a limit, the matches of as many lines are
/// kept.
pub proof fn limits_count_lines(matches: Seq<RegionMatch>, limit: u64)
    ensures
        first_lines(sorted_matches(matches, None), sorted_matches(matches, Some(limit)), limit),
{
    broadcast use vstd::set::group_set_axioms;

    let unique = without_repeats(crate::sorting::sort_items(by_pattern(matches)));
    let sorted = crate::sorting::sort_items(by_line(unique));
    crate::sorting::sorting_orders_and_keeps(by_line(unique));
    let all = sorted_matches(matches, None);
    let kept = sorted_matches(matches, Some(limit));
    lemma_within_bound(sorted, limit, 0);
    assert(sorted.take(sorted.len() as int) =~= sorted);
    assert(kept =~= all.take(kept.len() as int));
    assert forall|i: int| 0 <= i < all.len() implies (i < kept.len() <==> lines_of(
        all.take(i),
    ).remove(((#[trigger] all[i]).line, all[i].line_offset)).len() < limit) by {
        lemma_within_lines_are_first(sorted, limit, 0, i);
        lemma_lines_begun_are_lines(sorted, i);
        lemma_lines_begun_are_lines(sorted, i + 1);
        let front = sorted.take(i).map_values(|m: ByLine| m.0);
        assert(front =~= all.take(i));
        let held = sorted.take(i + 1).map_values(|m: ByLine| m.0);
        assert(held =~= front.push(all[i]));
        lemma_lines_of_push(front, all[i]);
        let own = (all[i].line, all[i].line_offset);
        assert(lines_of(held).remove(own) =~= lines_of(front).remove(own));
    }
}

/// A report holds every match that was found once, and nothing else, in order of their lines and of
/// their places there.
pub proof fn reports_hold_each_match_once_in_order(matches: Seq<RegionMatch>, i: int, j: int)
    ensures
        ({
            let all = sorted_matches(matches, None);
            &&& 0 <= i < all.len() ==> matches.contains(all[i])
            &&& 0 <= i < matches.len() ==> exists|k: int|
                0 <= k < all.len() && (#[trigger] all[k]).pattern == matches[i].pattern
                    && all[k].witness == matches[i].witness
            &&& 0 <= i < j < all.len() ==> not_behind(all[i], all[j]) && (all[i].pattern
                != all[j].pattern || all[i].witness != all[j].witness)
        }),
{
    let unique = without_repeats(crate::sorting::sort_items(by_pattern(matches)));
    let sorted = crate::sorting::sort_items(by_line(unique));
    crate::sorting::sorting_orders_and_keeps(by_line(unique));
    let all = sorted_matches(matches, None);
    assert(sorted.take(sorted.len() as int) =~= sorted);
    reported_matches_are_found(matches, None, i, j);
    if 0 <= i < matches.len() {
        let k = choose|k: int| 0 <= k < all.len() && same_match(#[trigger] all[k], matches[i]);
        assert(all[k].pattern == matches[i].pattern);
    }
    if 0 <= i < j < all.len() {
        assert(!crate::sorting::key_less(sorted[j].key(), sorted[i].key()));
        assert(all[i] == sorted[i].0 && all[j] == sorted[j].0);
    }
}

/// Where a sorted match comes from.
proof fn lemma_reported_unique(
    unique: Seq<RegionMatch>,
    sorted: Seq<ByLine>,
    i: int,
) -> (u: int)
    requires
        sorted == crate::sorting::sort_items(by_line(unique)),
        0 <= i < sorted.len(),
    ensures
        0 <= u < unique.len(),
        unique[u] == sorted[i].0,
{
    crate::sorting::sorting_orders_and_keeps(by_line(unique));
    assert(sorted.contains(sorted[i]));
    let u = choose|u: int| 0 <= u < by_line(unique).len() && by_line(unique)[u] == sorted[i];
    u
}

/// Where the line that holds byte `p` begins.
pub open spec fn line_start(bytes: Seq<u8>, p: int) -> int
    decreases p,
{
    if p <= 0 {
        0
    } else if bytes[p - 1] == 10 {
        p
    } else {
        line_start(bytes, p - 1)
    }
}

/// A scan that has counted the newlines before byte `at`.
#[derive(Debug, Clone, Copy)]
struct LineScan {
    at: usize,
    newlines: u64,
    start: usize,
}

impl LineScan {
    spec fn of(&self, bytes: Seq<u8>) -> bool {
        &&& self.at <= bytes.len()
        &&& self.newlines == crate::lines::newline_bytes(bytes, 0, self.at as int)
        &&& self.start == line_start(bytes, self.at as int)
        &&& self.newlines <= self.at
        &&& self.start <= self.at
    }

    fn advance(&mut self, bytes: &[u8], to: usize)
        requires
            old(self).of(bytes@),
            old(self).at <= to <= bytes@.len(),
        ensures
            final(self).of(bytes@),
            final(self).at == to,
    {
        while self.at < to
            invariant
                self.of(bytes@),
                self.at <= to <= bytes@.len(),
            decreases to - self.at,
        {
            if bytes[self.at] == 10 {
                self.newlines = self.newlines + 1;
                self.start = self.at + 1;
            }
            self.at = self.at + 1;
        }
    }
}

/// Matches come in order of their starts and lie in the bytes.
pub open spec fn found_in_order(found: Seq<FoundMatch>, len: nat) -> bool {
    &&& forall|i: int, j: int|
        0 <= i < j < found.len() ==> (#[trigger] found[i]).start <= (#[trigger] found[j]).start
    &&& forall|i: int|
        0 <= i < found.len() ==> (#[trigger] found[i]).start <= found[i].end <= len
}

/// An empty match behind the last line is no match.
pub open spec fn behind_last_line(bytes: Seq<u8>, found: FoundMatch) -> bool {
    found.start == bytes.len() && (bytes.len() == 0 || bytes.last() == 10)
}

/// A match in a whole document.
pub open spec fn whole_match(bytes: Seq<u8>, found: FoundMatch) -> RegionMatch {
    RegionMatch {
        pattern: found.pattern,
        witness: ByteRange { start: found.start as u64, end: found.end as u64 },
        line: (1 + crate::lines::newline_bytes(bytes, 0, found.start as int)) as u64,
        line_offset: line_start(bytes, found.start as int) as u64,
        canonical_span_known: true,
    }
}

/// The first `n` matches in a whole document, with their lines.
pub open spec fn whole_located(bytes: Seq<u8>, found: Seq<FoundMatch>, n: int) -> Seq<RegionMatch>
    decreases n,
{
    if n <= 0 {
        Seq::empty()
    } else if behind_last_line(bytes, found[n - 1]) {
        whole_located(bytes, found, n - 1)
    } else {
        whole_located(bytes, found, n - 1).push(whole_match(bytes, found[n - 1]))
    }
}

/// The matches of a whole document that are reported.
pub open spec fn whole_matches(
    bytes: Seq<u8>,
    found: Seq<FoundMatch>,
    max_count: Option<u64>,
) -> Seq<RegionMatch> {
    if max_count == Some(0u64) {
        Seq::empty()
    } else {
        sorted_matches(whole_located(bytes, found, found.len() as int), max_count)
    }
}

/// Place what was found in a whole document on its lines.
pub fn find_whole_matches(
    bytes: &[u8],
    found: &[FoundMatch],
    max_count: Option<u64>,
) -> (matches: Vec<RegionMatch>)
    requires
        found_in_order(found@, bytes@.len()),
        bytes@.len() < u64::MAX,
    ensures
        matches@ == whole_matches(bytes@, found@, max_count),
{
    if let Some(limit) = max_count {
        if limit == 0 {
            let none: Vec<RegionMatch> = Vec::new();
            assert(none@ =~= Seq::<RegionMatch>::empty());
            return none;
        }
    }
    let mut scan = LineScan { at: 0, newlines: 0, start: 0 };
    let mut located: Vec<RegionMatch> = Vec::new();
    let mut i: usize = 0;
    assert(located@ =~= Seq::<RegionMatch>::empty());
    while i < found.len()
        invariant
            i <= found.len(),
            found_in_order(found@, bytes@.len()),
            bytes@.len() < u64::MAX,
            scan.of(bytes@),
            forall|j: int| i <= j < found@.len() ==> scan.at <= (#[trigger] found@[j]).start,
            located@ == whole_located(bytes@, found@, i as int),
        decreases found.len() - i,
    {
        let next: FoundMatch = found[i];
        assert(found@[i as int].start <= found@[i as int].end <= bytes@.len());
        let behind: bool = next.start == bytes.len() && (bytes.len() == 0 || bytes[bytes.len() - 1]
            == 10);
        if !behind {
            scan.advance(bytes, next.start);
            located.push(
                RegionMatch {
                    pattern: next.pattern,
                    witness: ByteRange { start: next.start as u64, end: next.end as u64 },
                    line: 1 + scan.newlines,
                    line_offset: scan.start as u64,
                    canonical_span_known: true,
                },
            );
        }
        i = i + 1;
    }
    sort_region_matches(located, max_count)
}

/// A match in a region of a document.
pub open spec fn region_match(region: DocumentRegion, found: FoundMatch) -> RegionMatch {
    let first = line_start(region.bytes@, found.start as int);
    RegionMatch {
        pattern: found.pattern,
        witness: ByteRange {
            start: (region.start + found.start) as u64,
            end: (region.start + found.end) as u64,
        },
        line: (region.line + crate::lines::newline_bytes(region.bytes@, 0, found.start as int)) as u64,
        line_offset: if first == 0 {
            region.line_offset
        } else {
            (region.start + first) as u64
        },
        canonical_span_known: found.canonical_span_known,
    }
}

/// The first `n` matches of a region that begin in the document, with their lines.
pub open spec fn region_located(
    region: DocumentRegion,
    decoded_size: u64,
    found: Seq<FoundMatch>,
    n: int,
) -> Seq<RegionMatch>
    decreases n,
{
    if n <= 0 {
        Seq::empty()
    } else if region.start + found[n - 1].start >= decoded_size {
        region_located(region, decoded_size, found, n - 1)
    } else {
        region_located(region, decoded_size, found, n - 1).push(
            region_match(region, found[n - 1]),
        )
    }
}

/// The matches of the first `n` regions, one region after another.
pub open spec fn regions_located(
    regions: Seq<DocumentRegion>,
    decoded_size: u64,
    found: Seq<Vec<FoundMatch>>,
    n: int,
) -> Seq<RegionMatch>
    decreases n,
{
    if n <= 0 {
        Seq::empty()
    } else {
        regions_located(regions, decoded_size, found, n - 1) + region_located(
            regions[n - 1],
            decoded_size,
            found[n - 1]@,
            found[n - 1]@.len() as int,
        )
    }
}

/// The matches of a document's regions that are reported.
pub open spec fn region_matches(
    regions: Seq<DocumentRegion>,
    decoded_size: u64,
    found: Seq<Vec<FoundMatch>>,
    max_count: Option<u64>,
) -> Seq<RegionMatch> {
    if max_count == Some(0u64) {
        Seq::empty()
    } else {
        sorted_matches(
            regions_located(regions, decoded_size, found, regions.len() as int),
            max_count,
        )
    }
}

/// The region's places and lines fit 64 bits.
pub open spec fn region_fits(region: DocumentRegion) -> bool {
    region.start + region.bytes@.len() <= u64::MAX && region.line + region.bytes@.len() <= u64::MAX
}

/// Place what was found in the regions of a document on its lines.
pub fn find_region_matches(
    regions: &[DocumentRegion],
    decoded_size: u64,
    found: &[Vec<FoundMatch>],
    max_count: Option<u64>,
) -> (matches: Vec<RegionMatch>)
    requires
        found@.len() == regions@.len(),
        forall|r: int|
            0 <= r < regions@.len() ==> region_fits(#[trigger] regions@[r]) && found_in_order(
                found@[r]@,
                regions@[r].bytes@.len(),
            ),
    ensures
        matches@ == region_matches(regions@, decoded_size, found@, max_count),
{
    if let Some(limit) = max_count {
        if limit == 0 {
            let none: Vec<RegionMatch> = Vec::new();
            assert(none@ =~= Seq::<RegionMatch>::empty());
            return none;
        }
    }
    let mut located: Vec<RegionMatch> = Vec::new();
    let mut r: usize = 0;
    assert(located@ =~= Seq::<RegionMatch>::empty());
    while r < regions.len()
        invariant
            r <= regions.len(),
            found@.len() == regions@.len(),
            forall|q: int|
                0 <= q < regions@.len() ==> region_fits(#[trigger] regions@[q]) && found_in_order(
                    found@[q]@,
                    regions@[q].bytes@.len(),
                ),
            located@ == regions_located(regions@, decoded_size, found@, r as int),
        decreases regions.len() - r,
    {
        let region = &regions[r];
        let list = &found[r];
        let bytes = region.bytes.as_slice();
        assert(region_fits(regions@[r as int]));
        let ghost before = located@;
        let mut scan = LineScan { at: 0, newlines: 0, start: 0 };
        let mut i: usize = 0;
        assert(located@ =~= before + region_located(*region, decoded_size, list@, 0));
        while i < list.len()
            invariant
                i <= list.len(),
                region_fits(*region),
                bytes@ == region.bytes@,
                found_in_order(list@, bytes@.len()),
                scan.of(bytes@),
                forall|j: int| i <= j < list@.len() ==> scan.at <= (#[trigger] list@[j]).start,
                located@ == before + region_located(*region, decoded_size, list@, i as int),
            decreases list.len() - i,
        {
            let next: FoundMatch = list[i];
            assert(list@[i as int].start <= list@[i as int].end <= bytes@.len());
            scan.advance(bytes, next.start);
            let start: u64 = region.start + next.start as u64;
            if start < decoded_size {
                let line_offset: u64 = if scan.start == 0 {
                    region.line_offset
                } else {
                    region.start + scan.start as u64
                };
                located.push(
                    RegionMatch {
                        pattern: next.pattern,
                        witness: ByteRange { start, end: region.start + next.end as u64 },
                        line: region.line + scan.newlines,
                        line_offset,
                        canonical_span_known: next.canonical_span_known,
                    },
                );
            }
            assert(located@ =~= before + region_located(*region, decoded_size, list@, i + 1));
            i = i + 1;
        }
        r = r + 1;
    }
    sort_region_matches(located, max_count)
}

/// A match found in a region of a document, where the region says its line truly, is the same as
/// the match found in the whole document.
pub proof fn regions_locate_as_wholes(
    bytes: Seq<u8>,
    region: DocumentRegion,
    found: FoundMatch,
)
    requires
        region.start + region.bytes@.len() <= bytes.len(),
        bytes.len() < u64::MAX,
        region.bytes@ == bytes.subrange(
            region.start as int,
            region.start + region.bytes@.len(),
        ),
        region.line == 1 + crate::lines::newline_bytes(bytes, 0, region.start as int),
        region.line_offset == line_start(bytes, region.start as int),
        found.start <= found.end <= region.bytes@.len(),
        found.canonical_span_known,
        region.start + found.end <= usize::MAX,
    ensures
        region_match(region, found) == whole_match(
            bytes,
            FoundMatch {
                pattern: found.pattern,
                start: (region.start + found.start) as usize,
                end: (region.start + found.end) as usize,
                canonical_span_known: true,
            },
        ),
{
    let at = region.start as int;
    let p = found.start as int;
    crate::lines::lemma_newline_bytes_split(bytes, 0, at, at + p);
    lemma_shifted_newlines(bytes, region.bytes@, at, p);
    lemma_shifted_start(bytes, region.bytes@, at, p);
    lemma_newlines_bound(bytes, at + p);
}

proof fn lemma_newlines_bound(bytes: Seq<u8>, p: int)
    ensures
        p >= 0 ==> crate::lines::newline_bytes(bytes, 0, p) <= p,
        p >= 0 ==> 0 <= line_start(bytes, p) <= p,
    decreases p,
{
    if p > 0 {
        lemma_newlines_bound(bytes, p - 1);
    }
}

proof fn lemma_shifted_newlines(bytes: Seq<u8>, part: Seq<u8>, at: int, p: int)
    requires
        0 <= at,
        0 <= p <= part.len(),
        at + part.len() <= bytes.len(),
        part == bytes.subrange(at, at + part.len()),
    ensures
        crate::lines::newline_bytes(part, 0, p) == crate::lines::newline_bytes(bytes, at, at + p),
    decreases p,
{
    if p > 0 {
        lemma_shifted_newlines(bytes, part, at, p - 1);
        assert(part[p - 1] == bytes[at + p - 1]);
    }
}

proof fn lemma_shifted_start(bytes: Seq<u8>, part: Seq<u8>, at: int, p: int)
    requires
        0 <= at,
        0 <= p <= part.len(),
        at + part.len() <= bytes.len(),
        part == bytes.subrange(at, at + part.len()),
    ensures
        line_start(bytes, at + p) == if line_start(part, p) == 0 {
            line_start(bytes, at)
        } else {
            at + line_start(part, p)
        },
    decreases p,
{
    if p > 0 {
        lemma_shifted_start(bytes, part, at, p - 1);
        assert(part[p - 1] == bytes[at + p - 1]);
    }
}

/// Distinct items in order of their keys are one sequence, whatever order they came in.
proof fn lemma_same_order(a: Seq<ByLine>, b: Seq<ByLine>)
    requires
        crate::sorting::in_key_order(a),
        crate::sorting::in_key_order(b),
        forall|i: int, j: int|
            0 <= i < j < a.len() ==> (#[trigger] a[i]).key() != (#[trigger] a[j]).key(),
        forall|i: int, j: int|
            0 <= i < j < b.len() ==> (#[trigger] b[i]).key() != (#[trigger] b[j]).key(),
        forall|x: ByLine|
            #![trigger a.contains(x)]
            #![trigger b.contains(x)]
            a.contains(x) <==> b.contains(x),
    ensures
        a == b,
    decreases a.len(),
{
    if a.len() == 0 {
        if b.len() > 0 {
            assert(b.contains(b[0]));
        }
        assert(a =~= b);
    } else {
        assert(a.contains(a[0]));
        assert(b.contains(a[0]));
        let j = choose|j: int| 0 <= j < b.len() && b[j] == a[0];
        assert(b.contains(b[0]));
        assert(a.contains(b[0]));
        let i = choose|i: int| 0 <= i < a.len() && a[i] == b[0];
        if i > 0 {
            assert(!crate::sorting::key_less(a[i].key(), a[0].key()));
            assert(a[0].key() != a[i].key());
            if j > 0 {
                assert(!crate::sorting::key_less(b[j].key(), b[0].key()));
            }
        }
        assert(a[0] == b[0]);
        let x = a.skip(1);
        let y = b.skip(1);
        assert forall|m: int, n: int| 0 <= m < n < x.len() implies !crate::sorting::key_less(
            (#[trigger] x[n]).key(),
            (#[trigger] x[m]).key(),
        ) && x[m].key() != x[n].key() by {
            assert(x[m] == a[m + 1] && x[n] == a[n + 1]);
        }
        assert forall|m: int, n: int| 0 <= m < n < y.len() implies !crate::sorting::key_less(
            (#[trigger] y[n]).key(),
            (#[trigger] y[m]).key(),
        ) && y[m].key() != y[n].key() by {
            assert(y[m] == b[m + 1] && y[n] == b[n + 1]);
        }
        assert forall|item: ByLine|
            #![trigger x.contains(item)]
            #![trigger y.contains(item)]
            x.contains(item) <==> y.contains(item) by {
            if x.contains(item) {
                let m = choose|m: int| 0 <= m < x.len() && x[m] == item;
                assert(a[m + 1] == item && a[0].key() != a[m + 1].key());
                assert(a.contains(item));
                let n = choose|n: int| 0 <= n < b.len() && b[n] == item;
                assert(n > 0);
                assert(y[n - 1] == item);
            }
            if y.contains(item) {
                let m = choose|m: int| 0 <= m < y.len() && y[m] == item;
                assert(b[m + 1] == item && b[0].key() != b[m + 1].key());
                assert(b.contains(item));
                let n = choose|n: int| 0 <= n < a.len() && a[n] == item;
                assert(n > 0);
                assert(x[n - 1] == item);
            }
        }
        lemma_same_order(x, y);
        assert(a =~= seq![a[0]] + x);
        assert(b =~= seq![b[0]] + y);
    }
}

/// A match at a place of a document is one and the same.
pub open spec fn one_each(matches: Seq<RegionMatch>) -> bool {
    forall|i: int, j: int|
        0 <= i < matches.len() && 0 <= j < matches.len() && same_match(
            #[trigger] matches[i],
            #[trigger] matches[j],
        ) ==> matches[i] == matches[j]
}

/// The matches by line, each once, before any limit.
pub open spec fn lined_up(matches: Seq<RegionMatch>) -> Seq<ByLine> {
    crate::sorting::sort_items(
        by_line(without_repeats(crate::sorting::sort_items(by_pattern(matches)))),
    )
}

/// The sorted matches are those there were, in order, with no key twice.
proof fn lemma_lined_up(matches: Seq<RegionMatch>)
    requires
        one_each(matches),
    ensures
        crate::sorting::in_key_order(lined_up(matches)),
        forall|i: int, j: int|
            0 <= i < j < lined_up(matches).len() ==> (#[trigger] lined_up(matches)[i]).key() != (
            #[trigger] lined_up(matches)[j]).key(),
        forall|x: ByLine| #[trigger] lined_up(matches).contains(x) <==> matches.contains(x.0),
{
    let sorted = lined_up(matches);
    let reported = sorted_matches(matches, None);
    let unique = without_repeats(crate::sorting::sort_items(by_pattern(matches)));
    crate::sorting::sorting_orders_and_keeps(by_line(unique));
    assert(reported.len() == sorted.len());
    assert forall|i: int, j: int| 0 <= i < j < sorted.len() implies (#[trigger] sorted[i]).key()
        != (#[trigger] sorted[j]).key() by {
        reported_matches_are_found(matches, None, i, j);
        assert(reported[i] == sorted[i].0 && reported[j] == sorted[j].0);
    }
    assert forall|x: ByLine| #[trigger] sorted.contains(x) <==> matches.contains(x.0) by {
        if sorted.contains(x) {
            let i = choose|i: int| 0 <= i < sorted.len() && sorted[i] == x;
            reported_matches_are_found(matches, None, i, i);
            assert(reported[i] == x.0);
        }
        if matches.contains(x.0) {
            let i = choose|i: int| 0 <= i < matches.len() && matches[i] == x.0;
            reported_matches_are_found(matches, None, i, i);
            let k = choose|k: int| 0 <= k < reported.len() && same_match(
                #[trigger] reported[k],
                matches[i],
            );
            reported_matches_are_found(matches, None, k, k);
            let n = choose|n: int| 0 <= n < matches.len() && matches[n] == reported[k];
            assert(same_match(matches[n], matches[i]));
            assert(sorted[k] == x);
        }
    }
}

/// Matches are reported alike in whatever order, and however often, they were found.
pub proof fn reports_ignore_order(
    a: Seq<RegionMatch>,
    b: Seq<RegionMatch>,
    max_count: Option<u64>,
)
    requires
        one_each(a),
        forall|m: RegionMatch| #[trigger] a.contains(m) <==> b.contains(m),
    ensures
        sorted_matches(a, max_count) == sorted_matches(b, max_count),
{
    assert(one_each(b)) by {
        assert forall|i: int, j: int|
            0 <= i < b.len() && 0 <= j < b.len() && same_match(
                #[trigger] b[i],
                #[trigger] b[j],
            ) implies b[i] == b[j] by {
            assert(b.contains(b[i]) && b.contains(b[j]));
            assert(a.contains(b[i]) && a.contains(b[j]));
            let m = choose|m: int| 0 <= m < a.len() && a[m] == b[i];
            let n = choose|n: int| 0 <= n < a.len() && a[n] == b[j];
            assert(same_match(a[m], a[n]));
        }
    }
    lemma_lined_up(a);
    lemma_lined_up(b);
    lemma_same_order(lined_up(a), lined_up(b));
}

/// The region holds bytes of the document and knows its line.
pub open spec fn region_of(bytes: Seq<u8>, region: DocumentRegion) -> bool {
    &&& region.start + region.bytes@.len() <= bytes.len()
    &&& region.bytes@ == bytes.subrange(region.start as int, region.start + region.bytes@.len())
    &&& region.line == 1 + crate::lines::newline_bytes(bytes, 0, region.start as int)
    &&& region.line_offset == line_start(bytes, region.start as int)
}

/// What was found in the document is what was found in the region.
pub open spec fn found_at(whole: FoundMatch, region: DocumentRegion, found: FoundMatch) -> bool {
    &&& found.start <= found.end <= region.bytes@.len()
    &&& found.canonical_span_known
    &&& whole.pattern == found.pattern
    &&& whole.start == region.start + found.start
    &&& whole.end == region.start + found.end
}

/// The `i`th match of region `r` is one of the document.
pub open spec fn finds_in_whole(
    whole: Seq<FoundMatch>,
    regions: Seq<DocumentRegion>,
    found: Seq<Vec<FoundMatch>>,
    r: int,
    i: int,
) -> bool {
    exists|j: int|
        0 <= j < whole.len() && found_at(#[trigger] whole[j], regions[r], found[r]@[i])
}

/// The match of the document begins in it and was found in a region.
pub open spec fn found_in_regions(
    bytes: Seq<u8>,
    whole: FoundMatch,
    regions: Seq<DocumentRegion>,
    found: Seq<Vec<FoundMatch>>,
) -> bool {
    &&& whole.start <= whole.end <= bytes.len()
    &&& whole.start < bytes.len()
    &&& exists|r: int, i: int|
        0 <= r < regions.len() && 0 <= i < found[r]@.len() && found_at(
            whole,
            regions[r],
            #[trigger] found[r]@[i],
        )
}

proof fn lemma_region_located_holds(
    region: DocumentRegion,
    decoded_size: u64,
    found: Seq<FoundMatch>,
    n: int,
    m: RegionMatch,
)
    requires
        0 <= n <= found.len(),
    ensures
        region_located(region, decoded_size, found, n).contains(m) <==> exists|i: int|
            0 <= i < n && region.start + found[i].start < decoded_size && region_match(
                region,
                #[trigger] found[i],
            ) == m,
    decreases n,
{
    if n > 0 {
        let front = region_located(region, decoded_size, found, n - 1);
        let all = region_located(region, decoded_size, found, n);
        lemma_region_located_holds(region, decoded_size, found, n - 1, m);
        if all.contains(m) {
            let k = choose|k: int| 0 <= k < all.len() && all[k] == m;
            if k < front.len() {
                assert(front[k] == m);
                assert(front.contains(m));
            } else {
                assert(region_match(region, found[n - 1]) == m);
            }
        }
        if exists|i: int|
            0 <= i < n && region.start + found[i].start < decoded_size && region_match(
                region,
                #[trigger] found[i],
            ) == m {
            let i = choose|i: int|
                0 <= i < n && region.start + found[i].start < decoded_size && region_match(
                    region,
                    #[trigger] found[i],
                ) == m;
            if i < n - 1 {
                assert(front.contains(m));
                let k = choose|k: int| 0 <= k < front.len() && front[k] == m;
                assert(all[k] == m);
            } else {
                assert(all[front.len() as int] == m);
            }
        }
    }
}

proof fn lemma_regions_located_holds(
    regions: Seq<DocumentRegion>,
    decoded_size: u64,
    found: Seq<Vec<FoundMatch>>,
    n: int,
    m: RegionMatch,
)
    requires
        0 <= n <= regions.len(),
        found.len() == regions.len(),
    ensures
        regions_located(regions, decoded_size, found, n).contains(m) <==> exists|r: int, i: int|
            0 <= r < n && 0 <= i < found[r]@.len() && regions[r].start + found[r]@[i].start
                < decoded_size && region_match(regions[r], #[trigger] found[r]@[i]) == m,
    decreases n,
{
    if n > 0 {
        let front = regions_located(regions, decoded_size, found, n - 1);
        let list = found[n - 1]@;
        let last = region_located(regions[n - 1], decoded_size, list, list.len() as int);
        let all = regions_located(regions, decoded_size, found, n);
        lemma_regions_located_holds(regions, decoded_size, found, n - 1, m);
        lemma_region_located_holds(regions[n - 1], decoded_size, list, list.len() as int, m);
        if all.contains(m) {
            let k = choose|k: int| 0 <= k < all.len() && all[k] == m;
            if k < front.len() {
                assert(front[k] == m);
                assert(front.contains(m));
            } else {
                assert(last[k - front.len()] == m);
                assert(last.contains(m));
                let i = choose|i: int|
                    0 <= i < list.len() && regions[n - 1].start + list[i].start < decoded_size
                        && region_match(regions[n - 1], #[trigger] list[i]) == m;
                assert(region_match(regions[n - 1], found[n - 1]@[i]) == m);
            }
        }
        if exists|r: int, i: int|
            0 <= r < n && 0 <= i < found[r]@.len() && regions[r].start + found[r]@[i].start
                < decoded_size && region_match(regions[r], #[trigger] found[r]@[i]) == m {
            let (r, i) = choose|r: int, i: int|
                0 <= r < n && 0 <= i < found[r]@.len() && regions[r].start + found[r]@[i].start
                    < decoded_size && region_match(regions[r], #[trigger] found[r]@[i]) == m;
            if r < n - 1 {
                assert(front.contains(m));
                let k = choose|k: int| 0 <= k < front.len() && front[k] == m;
                assert(all[k] == m);
            } else {
                assert(region_match(regions[n - 1], list[i]) == m);
                assert(last.contains(m));
                let k = choose|k: int| 0 <= k < last.len() && last[k] == m;
                assert(all[front.len() + k] == m);
            }
        }
    }
}

proof fn lemma_whole_located_holds(
    bytes: Seq<u8>,
    found: Seq<FoundMatch>,
    n: int,
    m: RegionMatch,
)
    requires
        0 <= n <= found.len(),
    ensures
        whole_located(bytes, found, n).contains(m) <==> exists|j: int|
            0 <= j < n && !behind_last_line(bytes, found[j]) && whole_match(
                bytes,
                #[trigger] found[j],
            ) == m,
    decreases n,
{
    if n > 0 {
        let front = whole_located(bytes, found, n - 1);
        let all = whole_located(bytes, found, n);
        lemma_whole_located_holds(bytes, found, n - 1, m);
        if all.contains(m) {
            let k = choose|k: int| 0 <= k < all.len() && all[k] == m;
            if k < front.len() {
                assert(front[k] == m);
                assert(front.contains(m));
            } else {
                assert(whole_match(bytes, found[n - 1]) == m);
            }
        }
        if exists|j: int|
            0 <= j < n && !behind_last_line(bytes, found[j]) && whole_match(
                bytes,
                #[trigger] found[j],
            ) == m {
            let j = choose|j: int|
                0 <= j < n && !behind_last_line(bytes, found[j]) && whole_match(
                    bytes,
                    #[trigger] found[j],
                ) == m;
            if j < n - 1 {
                assert(front.contains(m));
                let k = choose|k: int| 0 <= k < front.len() && front[k] == m;
                assert(all[k] == m);
            } else {
                assert(all[front.len() as int] == m);
            }
        }
    }
}

/// Regions give the matches of the whole document: where each match that begins in the document
/// lies in one of the regions, and nothing else was found in them, the same matches are reported.
pub proof fn regions_match_as_wholes(
    bytes: Seq<u8>,
    whole: Seq<FoundMatch>,
    regions: Seq<DocumentRegion>,
    found: Seq<Vec<FoundMatch>>,
    max_count: Option<u64>,
)
    requires
        bytes.len() < u64::MAX,
        found.len() == regions.len(),
        forall|r: int| 0 <= r < regions.len() ==> region_of(bytes, #[trigger] regions[r]),
        forall|r: int, i: int|
            0 <= r < regions.len() && 0 <= i < found[r]@.len() ==> #[trigger] finds_in_whole(
                whole,
                regions,
                found,
                r,
                i,
            ),
        forall|j: int|
            0 <= j < whole.len() ==> found_in_regions(bytes, #[trigger] whole[j], regions, found),
    ensures
        region_matches(regions, bytes.len() as u64, found, max_count) == whole_matches(
            bytes,
            whole,
            max_count,
        ),
{
    let size = bytes.len() as u64;
    let a = whole_located(bytes, whole, whole.len() as int);
    let b = regions_located(regions, size, found, regions.len() as int);
    assert(one_each(a)) by {
        assert forall|x: int, y: int|
            0 <= x < a.len() && 0 <= y < a.len() && same_match(
                #[trigger] a[x],
                #[trigger] a[y],
            ) implies a[x] == a[y] by {
            assert(a.contains(a[x]) && a.contains(a[y]));
            lemma_whole_located_holds(bytes, whole, whole.len() as int, a[x]);
            lemma_whole_located_holds(bytes, whole, whole.len() as int, a[y]);
            let i = choose|i: int|
                0 <= i < whole.len() && !behind_last_line(bytes, whole[i]) && whole_match(
                    bytes,
                    #[trigger] whole[i],
                ) == a[x];
            let j = choose|j: int|
                0 <= j < whole.len() && !behind_last_line(bytes, whole[j]) && whole_match(
                    bytes,
                    #[trigger] whole[j],
                ) == a[y];
            assert(found_in_regions(bytes, whole[i], regions, found));
            assert(found_in_regions(bytes, whole[j], regions, found));
        }
    }
    assert forall|m: RegionMatch| #[trigger] a.contains(m) <==> b.contains(m) by {
        lemma_whole_located_holds(bytes, whole, whole.len() as int, m);
        lemma_regions_located_holds(regions, size, found, regions.len() as int, m);
        if a.contains(m) {
            let j = choose|j: int|
                0 <= j < whole.len() && !behind_last_line(bytes, whole[j]) && whole_match(
                    bytes,
                    #[trigger] whole[j],
                ) == m;
            assert(found_in_regions(bytes, whole[j], regions, found));
            let (r, i) = choose|r: int, i: int|
                0 <= r < regions.len() && 0 <= i < found[r]@.len() && found_at(
                    whole[j],
                    regions[r],
                    #[trigger] found[r]@[i],
                );
            assert(region_of(bytes, regions[r]));
            regions_locate_as_wholes(bytes, regions[r], found[r]@[i]);
            assert(region_match(regions[r], found[r]@[i]) == m);
        }
        if b.contains(m) {
            let (r, i) = choose|r: int, i: int|
                0 <= r < regions.len() && 0 <= i < found[r]@.len() && regions[r].start
                    + found[r]@[i].start < size && region_match(regions[r], #[trigger] found[r]@[i])
                    == m;
            assert(region_of(bytes, regions[r]));
            assert(finds_in_whole(whole, regions, found, r, i));
            let j = choose|j: int|
                0 <= j < whole.len() && found_at(#[trigger] whole[j], regions[r], found[r]@[i]);
            regions_locate_as_wholes(bytes, regions[r], found[r]@[i]);
            assert(whole_match(bytes, whole[j]) == m);
        }
    }
    reports_ignore_order(a, b, max_count);
}

/// Where there are matches, some are reported, unless none are wanted.
pub proof fn some_matches_are_reported(matches: Seq<RegionMatch>, max_count: Option<u64>)
    requires
        matches.len() > 0,
        max_count != Some(0u64),
    ensures
        sorted_matches(matches, max_count).len() > 0,
{
    let unique = without_repeats(crate::sorting::sort_items(by_pattern(matches)));
    let sorted = crate::sorting::sort_items(by_line(unique));
    reported_matches_are_found(matches, None, 0, 0);
    let all = sorted_matches(matches, None);
    let k = choose|k: int| 0 <= k < all.len() && same_match(#[trigger] all[k], matches[0]);
    assert(all.len() == sorted.len());
    if let Some(limit) = max_count {
        assert(lines_begun(sorted, 0) == 0);
        assert(lines_begun(sorted, 1) == 1);
        lemma_within_bound(sorted, limit, 1);
        assert(within_lines(sorted, limit, 0) == within_lines(sorted, limit, 1));
    }
}

/// A match of a whole document is reported somewhere unless it is an empty one behind the last line.
pub proof fn whole_documents_report_their_matches(
    bytes: Seq<u8>,
    found: Seq<FoundMatch>,
    max_count: Option<u64>,
)
    requires
        max_count != Some(0u64),
    ensures
        whole_matches(bytes, found, max_count).len() > 0 <==> exists|j: int|
            0 <= j < found.len() && !behind_last_line(bytes, #[trigger] found[j]),
{
    let located = whole_located(bytes, found, found.len() as int);
    if exists|j: int| 0 <= j < found.len() && !behind_last_line(bytes, #[trigger] found[j]) {
        let j = choose|j: int|
            0 <= j < found.len() && !behind_last_line(bytes, #[trigger] found[j]);
        lemma_whole_located_holds(bytes, found, found.len() as int, whole_match(bytes, found[j]));
        assert(located.contains(whole_match(bytes, found[j])));
        some_matches_are_reported(located, max_count);
    }
    let reported = whole_matches(bytes, found, max_count);
    if reported.len() > 0 {
        reported_matches_are_found(located, max_count, 0, 0);
        assert(located.contains(reported[0]));
        lemma_whole_located_holds(bytes, found, found.len() as int, reported[0]);
    }
}

/// With a limit, a whole document and regions of it report the matches of the first lines.
pub proof fn limited_reports_are_first_lines(
    bytes: Seq<u8>,
    whole: Seq<FoundMatch>,
    regions: Seq<DocumentRegion>,
    found: Seq<Vec<FoundMatch>>,
    decoded_size: u64,
    limit: u64,
)
    ensures
        first_lines(
            whole_matches(bytes, whole, None),
            whole_matches(bytes, whole, Some(limit)),
            limit,
        ),
        first_lines(
            region_matches(regions, decoded_size, found, None),
            region_matches(regions, decoded_size, found, Some(limit)),
            limit,
        ),
{
    let located = whole_located(bytes, whole, whole.len() as int);
    limits_count_lines(located, limit);
    let held = regions_located(regions, decoded_size, found, regions.len() as int);
    limits_count_lines(held, limit);
    if limit == 0 {
        assert(whole_matches(bytes, whole, Some(limit)) =~= whole_matches(
            bytes,
            whole,
            None,
        ).take(0));
        assert(region_matches(regions, decoded_size, found, Some(limit)) =~= region_matches(
            regions,
            decoded_size,
            found,
            None,
        ).take(0));
    }
}

/// The matches of a whole document are reported where they lie: every match that was found, but for an
/// empty one behind the last line, with its place, on the line whose number is one more than the
/// newlines before the match and which starts behind the last of these; and nothing else.
pub proof fn whole_reports_lie_on_their_lines(bytes: Seq<u8>, found: Seq<FoundMatch>, i: int)
    requires
        bytes.len() < u64::MAX,
        found_in_order(found, bytes.len()),
    ensures
        ({
            let all = whole_matches(bytes, found, None);
            &&& 0 <= i < all.len() ==> {
                let m = all[i];
                let before = bytes.subrange(0, m.witness.start as int);
                &&& m.witness.start <= m.witness.end <= bytes.len()
                &&& m.canonical_span_known
                &&& m.line == 1 + before.to_multiset().count(10)
                &&& m.line_offset <= m.witness.start
                &&& m.line_offset == 0 || bytes[m.line_offset - 1] == 10
                &&& forall|p: int| m.line_offset <= p < m.witness.start ==> #[trigger] bytes[p] != 10
                &&& exists|j: int|
                    0 <= j < found.len() && (#[trigger] found[j]).pattern == m.pattern
                        && found[j].start == m.witness.start && found[j].end == m.witness.end
            }
            &&& 0 <= i < found.len() && !(found[i].start == bytes.len() && (bytes.len() == 0
                || bytes.last() == 10)) ==> exists|k: int|
                0 <= k < all.len() && (#[trigger] all[k]).pattern == found[i].pattern
                    && all[k].witness.start == found[i].start && all[k].witness.end == found[i].end
        }),
{
    let located = whole_located(bytes, found, found.len() as int);
    let all = whole_matches(bytes, found, None);
    reports_hold_each_match_once_in_order(located, i, i);
    if 0 <= i < all.len() {
        lemma_whole_located_holds(bytes, found, found.len() as int, all[i]);
        let j = choose|j: int|
            0 <= j < found.len() && !behind_last_line(bytes, found[j]) && whole_match(
                bytes,
                #[trigger] found[j],
            ) == all[i];
        assert(found[j].start <= found[j].end <= bytes.len());
        let p = found[j].start as int;
        crate::lines::newlines_are_counted(bytes, 0, p);
        lemma_newlines_bound(bytes, p);
        crate::lines::lines_start_behind_newlines(bytes, p);
        assert(found[j].pattern == all[i].pattern);
    }
    if 0 <= i < found.len() && !behind_last_line(bytes, found[i]) {
        assert(found[i].start <= found[i].end <= bytes.len());
        let m = whole_match(bytes, found[i]);
        lemma_whole_located_holds(bytes, found, found.len() as int, m);
        let at = choose|at: int| 0 <= at < located.len() && located[at] == m;
        reports_hold_each_match_once_in_order(located, at, at);
        let k = choose|k: int|
            0 <= k < all.len() && (#[trigger] all[k]).pattern == located[at].pattern
                && all[k].witness == located[at].witness;
        assert(all[k].pattern == found[i].pattern);
    }
}

/// Reported matches of regions begin in the document.
pub proof fn lemma_region_starts(
    regions: Seq<DocumentRegion>,
    decoded_size: u64,
    found: Seq<Vec<FoundMatch>>,
    max_count: Option<u64>,
    i: int,
)
    requires
        found.len() == regions.len(),
        forall|r: int|
            0 <= r < regions.len() ==> region_fits(#[trigger] regions[r]) && found_in_order(
                found[r]@,
                regions[r].bytes@.len(),
            ),
        0 <= i < region_matches(regions, decoded_size, found, max_count).len(),
    ensures
        region_matches(regions, decoded_size, found, max_count)[i].witness.start < decoded_size,
{
    let located = regions_located(regions, decoded_size, found, regions.len() as int);
    reported_matches_are_found(located, max_count, i, i);
    let m = region_matches(regions, decoded_size, found, max_count)[i];
    let k = choose|k: int| 0 <= k < located.len() && located[k] == m;
    lemma_located_starts(regions, decoded_size, found, regions.len() as int, k);
}

proof fn lemma_located_starts(
    regions: Seq<DocumentRegion>,
    decoded_size: u64,
    found: Seq<Vec<FoundMatch>>,
    n: int,
    k: int,
)
    requires
        found.len() == regions.len(),
        0 <= n <= regions.len(),
        forall|r: int|
            0 <= r < regions.len() ==> region_fits(#[trigger] regions[r]) && found_in_order(
                found[r]@,
                regions[r].bytes@.len(),
            ),
        0 <= k < regions_located(regions, decoded_size, found, n).len(),
    ensures
        regions_located(regions, decoded_size, found, n)[k].witness.start < decoded_size,
    decreases n,
{
    let front = regions_located(regions, decoded_size, found, n - 1);
    let all = regions_located(regions, decoded_size, found, n);
    if k < front.len() {
        assert(all[k] == front[k]);
        lemma_located_starts(regions, decoded_size, found, n - 1, k);
    } else {
        let list = found[n - 1]@;
        assert(region_fits(regions[n - 1]));
        lemma_region_located_starts(
            regions[n - 1],
            decoded_size,
            list,
            list.len() as int,
            k - front.len(),
        );
    }
}

proof fn lemma_region_located_starts(
    region: DocumentRegion,
    decoded_size: u64,
    found: Seq<FoundMatch>,
    n: int,
    k: int,
)
    requires
        region_fits(region),
        found_in_order(found, region.bytes@.len()),
        0 <= n <= found.len(),
        0 <= k < region_located(region, decoded_size, found, n).len(),
    ensures
        region_located(region, decoded_size, found, n)[k].witness.start < decoded_size,
    decreases n,
{
    let front = region_located(region, decoded_size, found, n - 1);
    if k < front.len() {
        lemma_region_located_starts(region, decoded_size, found, n - 1, k);
    } else {
        assert(found[n - 1].start <= found[n - 1].end <= region.bytes@.len());
    }
}

} // verus!
