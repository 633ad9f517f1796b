//! Planning patterns, finding matches and reporting them.

use seagrep_index::error::IndexError;
use seagrep_index::events::{
    build_count_events, merge_line_events, shift_events, LineEvent, LineKind, SubMatch,
};
use seagrep_index::fetch::{DocumentRegion, RegionProgram};
use seagrep_index::matches::{find_region_matches, find_whole_matches, FoundMatch, RegionMatch};
use seagrep_index::pack::ByteRange;
use seagrep_index::planner::{
    hir_query, plan, planned_literals, GivenGrams, Grams, PatternNode, PatternShape, Shape,
    Trigrams,
};
use seagrep_index::query::Query;
use seagrep_index::search::{
    batch_end, candidate_limits, count_pattern_kind, search_document, verify_regions, verify_whole,
    BatchEnd, BatchResult, KeyScope, NullSink, PatternKind, SearchDetail, SearchTotals, SinkFlow,
    Verdict, WorkerEnd, FILE_MATCH_CHUNK,
};
use seagrep_index::program::{find_matches, has_line_match, Program};
use seagrep_index::stream::{StreamScan, StreamStart};
use seagrep_index::windows::{build_windows, window_clip_range};

#[test]
fn wildcard_is_all() {
    assert_eq!(plan(".*", &Trigrams).unwrap(), Query::All);
}

#[test]
fn single_char_literal_is_all() {
    // one byte -> no pair -> no gram -> All
    assert_eq!(plan("a", &Trigrams).unwrap(), Query::All);
}

#[test]
fn literal_yields_gram_conjunction() {
    // a real literal produces an OR of one AND-of-grams (not All, not None)
    // (prefix and suffix extraction agree on a plain literal, so the
    // two sides dedup to a single Or rather than And([q, q]))
    let q = plan("handleClick", &Trigrams).unwrap();
    assert!(matches!(q, Query::Or(_)));
    assert_ne!(q, Query::All);
}

fn grams_of(q: &Query) -> Vec<Vec<u8>> {
    match q {
        Query::Gram(g) => vec![g.clone()],
        Query::And(children) | Query::Or(children) => children.iter().flat_map(grams_of).collect(),
        Query::All => Vec::new(),
    }
}

#[test]
fn dot_star_gap_constrains_both_sides() {
    let q = plan("needle.*haystack", &Trigrams).unwrap();
    let Query::And(sides) = &q else {
        panic!("expected And of prefix+suffix sides, got {q:?}")
    };
    assert_eq!(sides.len(), 2);
    let grams = grams_of(&q);
    assert!(grams.contains(&b"nee".to_vec()), "missing prefix grams");
    assert!(grams.contains(&b"hay".to_vec()), "missing suffix grams");
}

#[test]
fn unbounded_suffix_still_uses_prefix() {
    // `needle.*` has no suffix literals; the prefix side alone applies
    let q = plan("needle.*", &Trigrams).unwrap();
    assert!(matches!(q, Query::Or(_)));
    assert!(grams_of(&q).contains(&b"nee".to_vec()));
}

#[test]
fn alternation_with_common_suffix() {
    // every match ends with "_total"; the suffix side must survive even
    // though the prefix side is an alternation
    let q = plan("(http|grpc)_requests_total", &Trigrams).unwrap();
    let grams = grams_of(&q);
    assert!(
        grams.contains(&b"tot".to_vec()),
        "suffix constraint dropped"
    );
}

#[test]
fn inner_literal_constrains_unanchored_pattern() {
    // both ends are unconstrained, but ERROR appears in every match
    let q = plan(".*ERROR.*", &Trigrams).unwrap();
    assert_ne!(q, Query::All, ".*ERROR.* must not scan everything");
    assert!(grams_of(&q).contains(&b"ERR".to_vec()));
}

#[test]
fn inner_alternation_constrains() {
    // every match contains quick or lazy
    let q = plan(".*(quick|lazy).*", &Trigrams).unwrap();
    assert_ne!(q, Query::All);
    let grams = grams_of(&q);
    assert!(grams.contains(&b"qui".to_vec()));
    assert!(grams.contains(&b"laz".to_vec()));
}

#[test]
fn optional_inner_literal_stays_all() {
    // (ERROR)? may match zero times: its grams are NOT necessary
    assert_eq!(plan(".*(ERROR)?.*", &Trigrams).unwrap(), Query::All);
}

#[test]
fn repeated_inner_literal_constrains() {
    // (ERROR)+ appears at least once
    let q = plan(".*(ERROR)+.*", &Trigrams).unwrap();
    assert!(grams_of(&q).contains(&b"ERR".to_vec()));
}

#[test]
fn bytes_that_are_no_text_can_be_planned() {
    assert!(plan(r"(?-u)\xff", &Trigrams).is_ok());
    assert_eq!(plan("(", &Trigrams), Err(IndexError::BadPattern));
}

#[test]
fn literals_are_cut_into_trigrams() {
    assert_eq!(
        Trigrams.grams(b"abcd"),
        vec![b"abc".to_vec(), b"bcd".to_vec()]
    );
    assert!(Trigrams.grams(b"ab").is_empty());
    let gram = |text: &[u8]| Query::Gram(text.to_vec());
    assert_eq!(
        plan("abcd", &Trigrams).unwrap(),
        Query::Or(vec![Query::And(vec![gram(b"abc"), gram(b"bcd")])])
    );
}

#[test]
fn grams_found_beforehand_plan_alike() {
    for pattern in ["handleClick", "(foo|barbaz)qux", "a.*needle", "x", ".*"] {
        let literals = planned_literals(pattern).unwrap();
        let grams = literals
            .iter()
            .map(|literal| Trigrams.grams(literal))
            .collect();
        assert_eq!(
            plan(pattern, &GivenGrams { literals, grams }).unwrap(),
            plan(pattern, &Trigrams).unwrap(),
            "{pattern}"
        );
    }
    let unasked = GivenGrams {
        literals: Vec::new(),
        grams: Vec::new(),
    };
    assert_eq!(plan("needle", &unasked).unwrap(), Query::All);
    assert!(planned_literals("needle")
        .unwrap()
        .contains(&b"needle".to_vec()));
    assert_eq!(planned_literals("("), Err(IndexError::BadPattern));
}

#[test]
fn nodes_constrain_as_their_shapes_say() {
    let node = |shape: Shape, children: usize, prefix: Option<&str>| PatternNode {
        place: PatternShape { shape, children },
        prefixes: prefix.map(|text| vec![text.as_bytes().to_vec()]),
        suffixes: None,
    };
    let one = |text: &str| Query::Or(vec![Query::And(vec![Query::Gram(text.as_bytes().to_vec())])]);
    let leaves = |shape: Shape| {
        [
            node(shape, 2, None),
            node(Shape::Leaf, 0, Some("abc")),
            node(Shape::Leaf, 0, Some("xyz")),
        ]
    };
    assert_eq!(
        hir_query(&leaves(Shape::Concat), &Trigrams),
        Query::And(vec![one("abc"), one("xyz")])
    );
    assert_eq!(
        hir_query(&leaves(Shape::Alternation), &Trigrams),
        Query::Or(vec![one("abc"), one("xyz")])
    );
    let repeated = |min: u32| {
        [
            node(Shape::Repetition { min }, 1, None),
            node(Shape::Leaf, 0, Some("abc")),
        ]
    };
    assert_eq!(hir_query(&repeated(1), &Trigrams), one("abc"));
    assert_eq!(hir_query(&repeated(0), &Trigrams), Query::All);
}

fn compiled(pattern: &str) -> Program {
    Program::compile(pattern).unwrap()
}

fn stream(bytes: &[u8], pattern: &str, match_len: usize) -> Result<bool, IndexError> {
    let program = compiled(pattern);
    let mut scan = match StreamScan::start(bytes.len() as u64, match_len)? {
        StreamStart::Settled(found) => return Ok(found),
        StreamStart::Scan(scan) => scan,
    };
    let mut at = 0;
    while scan.next_len() > 0 {
        let read = scan.next_len();
        if scan.feed(&program, &bytes[at..at + read]) {
            return Ok(true);
        }
        at += read;
    }
    Ok(false)
}

#[test]
fn search_bounded_file_search_matches_in_memory_across_chunks() {
    let chunk = FILE_MATCH_CHUNK as usize;
    let mut bytes = vec![b'x'; chunk * 2 + 17];
    let at = chunk - 3;
    bytes[at..at + 6].copy_from_slice(b"needle");
    for (pattern, match_len) in [
        ("needle", 6),
        ("missing", 7),
        ("x{16}needle", 22),
        ("", 0),
        ("needle|other", 6),
    ] {
        assert_eq!(
            stream(&bytes, pattern, match_len).unwrap(),
            compiled(pattern).is_match(&bytes),
            "{pattern}"
        );
    }
}

#[test]
fn mod_bounded_file_search_matches_in_memory_across_chunks() {
    let chunk = FILE_MATCH_CHUNK as usize;
    let mut bytes = vec![b'x'; chunk * 2 + 17];
    let at = chunk - 3;
    bytes[at..at + 6].copy_from_slice(b"needle");
    for (pattern, span) in [
        ("needle", 6),
        ("missing", 7),
        ("x{16}needle", 22),
        ("needle|other", 6),
    ] {
        let streamed = stream(&bytes, pattern, span).unwrap();
        let memory = regex::bytes::Regex::new(pattern).unwrap().is_match(&bytes);
        assert_eq!(streamed, memory, "{pattern}");
    }
}

#[test]
fn streams_are_bounded() {
    assert!(matches!(
        StreamScan::start(10, FILE_MATCH_CHUNK as usize + 2),
        Err(IndexError::StreamOverlap)
    ));
    assert_eq!(stream(b"", "", 0), Ok(false));
    assert_eq!(stream(b"abc", "b", 1), Ok(true));
    assert_eq!(stream(b"abc", "x", 1), Ok(false));
    assert_eq!(
        stream(b"abc", "b", FILE_MATCH_CHUNK as usize + 2),
        Err(IndexError::StreamOverlap)
    );
}

fn found(pattern: usize, start: usize, end: usize) -> FoundMatch {
    FoundMatch {
        pattern,
        start,
        end,
        canonical_span_known: true,
    }
}

fn located(pattern: usize, start: u64, end: u64, line: u64, line_offset: u64) -> RegionMatch {
    RegionMatch {
        pattern,
        witness: ByteRange { start, end },
        line,
        line_offset,
        canonical_span_known: true,
    }
}

#[test]
fn max_count_keeps_earliest_union_lines_and_caps_large_exact_spans() {
    let body = b"first\nsecond\n";
    let matches = find_whole_matches(body, &[found(1, 0, 5), found(0, 6, 12)], Some(1));
    assert_eq!(matches.len(), 1);
    assert_eq!(matches[0].line, 1);
    assert_eq!(matches[0].pattern, 1);
    let all = find_whole_matches(body, &[found(1, 0, 5), found(0, 6, 12)], None);
    assert_eq!(all, [located(1, 0, 5, 1, 0), located(0, 6, 12, 2, 6)]);
}

#[test]
fn regional_matches_share_a_line_across_an_unfetched_zero_newline_gap() {
    let region = |start: u64, bytes: &[u8]| DocumentRegion {
        start,
        line: 7,
        line_offset: 80,
        bytes: bytes.to_vec(),
        program: RegionProgram::Regional,
    };
    let regions = [region(100, b"needle-left"), region(1_000, b"right-needle\n")];
    let hits = [vec![found(0, 0, 6)], vec![found(0, 6, 12)]];
    let matches = find_region_matches(&regions, 1_013, &hits, None);
    assert_eq!(matches.len(), 2);
    assert_eq!(matches[0].line, 7);
    assert_eq!(matches[1].line, 7);
}

#[test]
fn totals_add_up_and_do_not_wrap() {
    let mut totals = SearchTotals::new();
    totals.add_candidates(3).unwrap();
    let batch = BatchResult {
        hit_count: 2,
        regional_docs: 1,
        whole_docs: 2,
        candidate_bytes: 10,
        decoded_bytes: 20,
        stopped: false,
    };
    assert_eq!(totals.add_batch(batch), Ok(true));
    assert_eq!((totals.hit_count, totals.candidates), (2, 3));
    assert_eq!(
        totals.add_batch(BatchResult {
            stopped: true,
            ..batch
        }),
        Ok(false)
    );
    assert_eq!(
        totals.add_candidates(usize::MAX),
        Err(IndexError::CandidateTotal)
    );
    assert_eq!(
        totals.add_batch(BatchResult {
            hit_count: usize::MAX,
            ..batch
        }),
        Err(IndexError::HitTotal)
    );
}

#[test]
fn scopes_admit_by_prefix_and_predicate() {
    let none: Option<fn(&str) -> bool> = None;
    let all = KeyScope {
        prefix: None,
        matches: none,
    };
    assert!(all.admits("anything"));
    let logs = KeyScope {
        prefix: Some("logs/"),
        matches: Some(|key: &str| key.ends_with(".log")),
    };
    assert!(logs.admits("logs/a.log"));
    assert!(!logs.admits("logs/a.txt"));
    assert!(!logs.admits("other/a.log"));
}

#[test]
fn null_sinks_take_documents_only() {
    assert_eq!(NullSink.detail(), SearchDetail::Documents);
    assert_eq!(NullSink.on_doc(), SinkFlow::Continue);
}

#[test]
fn batches_end_as_their_workers_do() {
    assert_eq!(
        batch_end(WorkerEnd::Done, WorkerEnd::Done),
        BatchEnd::Complete
    );
    assert_eq!(
        batch_end(WorkerEnd::Stopped, WorkerEnd::Stopped),
        BatchEnd::Stopped
    );
    assert_eq!(
        batch_end(WorkerEnd::Failed, WorkerEnd::Stopped),
        BatchEnd::FeedFailed
    );
    assert_eq!(
        batch_end(WorkerEnd::Failed, WorkerEnd::Failed),
        BatchEnd::VerifyFailed
    );
}

#[test]
fn single_matches_are_searched_in_small_batches() {
    assert_eq!(candidate_limits(Some(1)).documents, 8);
    assert_eq!(candidate_limits(None).documents, 16_384);
    assert_eq!(candidate_limits(Some(2)).decoded_bytes, 64 * 1024 * 1024);
    let kinds = [PatternKind::Exact, PatternKind::Proof, PatternKind::Exact];
    assert_eq!(count_pattern_kind(&kinds, PatternKind::Exact), 2);
    assert_eq!(count_pattern_kind(&kinds, PatternKind::Fallback), 0);
}

fn event(line: u64, kind: LineKind, submatches: &[(usize, usize)]) -> LineEvent {
    LineEvent {
        line,
        kind,
        offset: line * 10,
        text: b"text\n".to_vec(),
        submatches: submatches
            .iter()
            .map(|(start, end)| SubMatch {
                start: *start,
                end: *end,
            })
            .collect(),
    }
}

#[test]
fn counts_report_lines_or_matches() {
    let matches = [
        located(0, 0, 1, 1, 0),
        located(0, 2, 3, 1, 0),
        located(0, 9, 10, 2, 8),
    ];
    assert_eq!(build_count_events(&matches, false).len(), 2);
    let counted = build_count_events(&matches, true);
    let submatches: usize = counted.iter().map(|event| event.submatches.len()).sum();
    assert_eq!(submatches, 3);
}

#[test]
fn line_events_merge_by_line() {
    let merged = merge_line_events(vec![
        event(2, LineKind::Match, &[(4, 5)]),
        event(1, LineKind::Context, &[]),
        event(2, LineKind::Match, &[(0, 1)]),
        event(1, LineKind::Match, &[(2, 3)]),
    ]);
    assert_eq!(
        merged,
        [
            event(1, LineKind::Match, &[(2, 3)]),
            event(2, LineKind::Match, &[(0, 1), (4, 5)]),
        ]
    );
    let shifted = shift_events(vec![event(2, LineKind::Match, &[])], 5, 100);
    assert_eq!((shifted[0].line, shifted[0].offset), (6, 120));
}

#[test]
fn windows_are_clipped_to_their_line() {
    let witness = ByteRange { start: 50, end: 54 };
    assert_eq!(window_clip_range(0, 100, &witness, 10), Ok((47, 57)));
    assert_eq!(window_clip_range(0, 55, &witness, 10), Ok((45, 55)));
    assert_eq!(window_clip_range(49, 100, &witness, 10), Ok((49, 59)));
    assert_eq!(window_clip_range(0, 100, &witness, 2), Ok((50, 52)));
    assert_eq!(
        window_clip_range(0, 100, &witness, 0),
        Err(IndexError::WindowSize)
    );
}

#[test]
fn windows_show_every_match_of_a_line() {
    let body = b"one needle two needle\nthree\n";
    let matches = [located(0, 4, 10, 1, 0), located(0, 15, 21, 1, 0)];
    let windows = build_windows(&matches, body.len() as u64, 12, body).unwrap();
    assert_eq!(windows.len(), 1);
    assert_eq!(windows[0].text, &body[1..13]);
    assert_eq!(windows[0].matches.len(), 1);
    assert!(windows[0].left_clipped && windows[0].right_clipped);
    let wide = build_windows(&matches, body.len() as u64, 100, body).unwrap();
    assert_eq!(wide[0].text, b"one needle two needle\n");
    assert_eq!(wide[0].matches.len(), 2);
    assert_eq!(
        build_windows(&matches, 3, 100, body),
        Err(IndexError::DocumentLength {
            bytes: body.len() as u64,
            decoded_size: 3
        })
    );
}

#[test]
fn verdicts_follow_the_detail_asked_for() {
    let body = b"first\nsecond\n";
    let hits = [found(0, 0, 5)];
    assert!(matches!(
        verify_whole(body, &[], SearchDetail::Documents, None),
        Ok(Verdict::NoMatch)
    ));
    assert!(matches!(
        verify_whole(body, &hits, SearchDetail::Documents, None),
        Ok(Verdict::Documents)
    ));
    let Ok(Verdict::Lines(events)) = verify_whole(body, &hits, SearchDetail::MatchingLines, None)
    else {
        panic!("expected lines")
    };
    assert_eq!(events.len(), 1);
    assert!(matches!(
        verify_whole(
            body,
            &hits,
            SearchDetail::MatchWindows { max_bytes: 0 },
            None
        ),
        Err(IndexError::WindowSize)
    ));
}

#[test]
fn regional_verdicts_say_what_to_read() {
    let regions = [DocumentRegion {
        start: 100,
        line: 7,
        line_offset: 80,
        bytes: b"a needle here\nnext\n".to_vec(),
        program: RegionProgram::Regional,
    }];
    let hits = [vec![found(0, 2, 8)]];
    let verdict = |detail: SearchDetail| verify_regions(&regions, 1_000, &hits, detail, None);
    assert!(matches!(
        verdict(SearchDetail::Documents),
        Ok(Verdict::Documents)
    ));
    let Ok(Verdict::FetchLines(ranges)) = verdict(SearchDetail::FullLines) else {
        panic!("expected ranges")
    };
    assert_eq!(
        ranges,
        [ByteRange {
            start: 102,
            end: 108
        }]
    );
    let Ok(Verdict::Lines(events)) = verdict(SearchDetail::MatchingLines) else {
        panic!("expected lines")
    };
    assert_eq!((events.len(), events[0].line), (1, 7));
    assert!(matches!(
        verdict(SearchDetail::MatchWindows { max_bytes: 10 }),
        Ok(Verdict::FetchWindows { .. })
    ));
    assert!(matches!(
        verdict(SearchDetail::MatchWindows { max_bytes: 0 }),
        Err(IndexError::WindowSize)
    ));
    assert!(matches!(
        verify_regions(&regions, 1_000, &[Vec::new()], SearchDetail::FullLines, None),
        Ok(Verdict::NoMatch)
    ));
    // an empty match still asks for the byte it stands at
    let Ok(Verdict::FetchLines(ranges)) = verify_regions(
        &regions,
        1_000,
        &[vec![found(0, 2, 2)]],
        SearchDetail::FullLines,
        None,
    ) else {
        panic!("expected ranges")
    };
    assert_eq!(
        ranges,
        [ByteRange {
            start: 102,
            end: 103
        }]
    );
}

#[test]
fn documents_are_searched_for_their_pattern() {
    let body = b"one needle\ntwo needles\nnone\n";
    assert_eq!(
        find_matches(&compiled("needle"), body),
        [found(0, 4, 10), found(0, 15, 21)]
    );
    // matches do not overlap, and an empty one is a match
    assert_eq!(
        find_matches(&compiled("aa"), b"aaaa"),
        [found(0, 0, 2), found(0, 2, 4)]
    );
    assert_eq!(
        find_matches(&compiled("b*"), b"ab"),
        [found(0, 0, 0), found(0, 1, 2)]
    );
    assert_eq!(Program::compile("(").err(), Some(IndexError::BadPattern));

    let search = |pattern: &str, detail: SearchDetail, max_count: Option<u64>| {
        search_document(&compiled(pattern), body, detail, max_count)
    };
    assert!(matches!(
        search("absent", SearchDetail::Documents, None),
        Ok(Verdict::NoMatch)
    ));
    assert!(matches!(
        search("need", SearchDetail::Documents, None),
        Ok(Verdict::Documents)
    ));
    let Ok(Verdict::LinesOf(matches)) = search("needle", SearchDetail::FullLines, None) else {
        panic!("expected matches")
    };
    assert_eq!(matches, [located(0, 4, 10, 1, 0), located(0, 15, 21, 2, 11)]);
    let Ok(Verdict::LinesOf(matches)) = search("needle", SearchDetail::FullLines, Some(1)) else {
        panic!("expected matches")
    };
    assert_eq!(matches, [located(0, 4, 10, 1, 0)]);
    assert!(matches!(
        search("needle", SearchDetail::Documents, Some(0)),
        Ok(Verdict::NoMatch)
    ));
}

#[test]
fn patterns_are_searched_for_line_by_line() {
    let lines = |pattern: &str, body: &[u8]| -> Vec<(usize, usize)> {
        let program = compiled(pattern);
        let matches = find_matches(&program, body);
        assert_eq!(!matches.is_empty(), has_line_match(&program, body));
        matches.iter().map(|found| (found.start, found.end)).collect()
    };
    // anchors hold at every line
    assert_eq!(lines("^needle", b"x\nneedle\n"), [(2, 8)]);
    assert_eq!(lines("needle$", b"needle\nneedles"), [(0, 6)]);
    assert_eq!(lines("^$", b"a\n\nb"), [(2, 2)]);
    // and no class matches the end of a line
    assert_eq!(lines(r"a\sb", b"a\nb"), []);
    assert_eq!(lines(r"a\sb", b"a b\na\tb"), [(0, 3), (4, 7)]);
    assert_eq!(lines("[^x]+", b"ab\ncd\n"), [(0, 2), (3, 5)]);
    // there is no line behind the last newline, nor in an empty document
    assert_eq!(lines(".*", b"ab\n"), [(0, 2)]);
    assert_eq!(lines(".*", b"\n"), [(0, 0)]);
    assert_eq!(lines(".*", b""), []);
    // a pattern whose matches hold no newline matches in the document as in its lines
    for body in [&b"one needle\ntwo"[..], b"need\nle", b"\n\n", b"needle"] {
        let program = compiled("needle|hay");
        assert_eq!(program.is_match(body), has_line_match(&program, body));
    }
    assert!(matches!(
        search_document(&compiled("^two"), b"one\ntwo\n", SearchDetail::Documents, None),
        Ok(Verdict::Documents)
    ));
}

#[test]
fn what_compiles_can_be_planned() {
    for pattern in ["needle", "(?-u)\\xff", "a{2,}|b", "^x.*y$", ""] {
        assert!(Program::compile(pattern).is_ok(), "{pattern}");
        assert!(plan(pattern, &Trigrams).is_ok(), "{pattern}");
    }
    for pattern in ["(", "a{2,1}", "[z-a]", "*"] {
        assert_eq!(
            Program::compile(pattern).err(),
            Some(IndexError::BadPattern),
            "{pattern}"
        );
    }
    // too large when compiled
    assert!(Program::compile(r"\w{1000}").is_err());
}

#[test]
fn the_first_window_that_cannot_be_cut_is_reported() {
    let body = [b'.'; 100];
    let far = |line| located(0, 200, 300, line, 0);
    let reversed = |line| located(0, 30, 25, line, 0);
    let windows = |matches: &[RegionMatch]| build_windows(matches, 100, 10, &body);
    assert_eq!(
        windows(&[far(1), reversed(2)]),
        Err(IndexError::WindowSource)
    );
    assert_eq!(
        windows(&[reversed(1), far(2)]),
        Err(IndexError::WindowOverflow)
    );
    assert!(windows(&[located(0, 30, 35, 1, 0)]).is_ok());
}

#[test]
fn regions_of_whole_lines_decide_as_documents() {
    let body = b"first line\na needle\nnothing\nneedle, needle\nlast";
    let region = |start: usize, end: usize, line: u64| DocumentRegion {
        start: start as u64,
        line,
        line_offset: start as u64,
        bytes: body[start..end].to_vec(),
        program: RegionProgram::Regional,
    };
    for pattern in ["needle", "^needle", "needle$", "a.n", "absent"] {
        let program = compiled(pattern);
        // every line with a match is in one of the regions
        let regions = [region(11, 20, 2), region(28, 43, 4)];
        let hits: Vec<Vec<FoundMatch>> = regions
            .iter()
            .map(|region| find_matches(&program, &region.bytes))
            .collect();
        for detail in [
            SearchDetail::Documents,
            SearchDetail::MatchingLines,
            SearchDetail::MatchCount,
            SearchDetail::FullLines,
        ] {
            let whole = search_document(&program, body, detail, None).unwrap();
            let parts = verify_regions(&regions, body.len() as u64, &hits, detail, None).unwrap();
            match (whole, parts) {
                (Verdict::NoMatch, Verdict::NoMatch) => assert_eq!(pattern, "absent"),
                (Verdict::Documents, Verdict::Documents) => {}
                (Verdict::Lines(whole), Verdict::Lines(parts)) => assert_eq!(whole, parts),
                (Verdict::LinesOf(matches), Verdict::FetchLines(ranges)) => {
                    let witnesses: Vec<ByteRange> =
                        matches.iter().map(|found| found.witness).collect();
                    assert_eq!(witnesses, ranges);
                }
                other => panic!("{pattern}: {other:?}"),
            }
        }
    }
}
