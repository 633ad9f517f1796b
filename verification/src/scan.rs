//! What an index owes to a full scan: a search through the index finds the documents that
//! searching every document finds.

use vstd::prelude::*;

use crate::candidate::BlockExpansion;
use crate::candidate::SearchExtent;
use crate::eval::TermLookup;
use crate::postings::GramList;
use crate::query::Query;
use crate::query::Strategy;

verus! {

/// The lists have every trigram of a document whose first block is block `base`, at the block that
/// the trigram counts for.
pub open spec fn document_indexed(lists: Seq<GramList>, body: Seq<u8>, base: nat) -> bool {
    forall|b: int, gram: Seq<u8>|
        0 <= b < crate::candidate::block_count(body.len() as u64)
            && #[trigger] crate::planner::trigrams_of(
            crate::postings::block_window(body, b),
        ).contains(gram) ==> crate::postings::listed(lists, (base + b) as u32, gram)
}

/// A selection of blocks keeps document `d`.
pub open spec fn document_selected(
    selected: Option<Set<u32>>,
    tables: crate::format::SegmentTables,
    d: int,
) -> bool {
    match selected {
        None => true,
        Some(ids) => exists|id: u32|
            crate::candidate::blocks_before(tables, d as nat) <= id
                < crate::candidate::blocks_before(tables, (d + 1) as nat) && #[trigger] ids.contains(
                id,
            ),
    }
}

/// A query that holds of no grams at all resolves to everything.
proof fn lemma_unconstrained<L: TermLookup>(
    q: Query,
    id_space: u32,
    strategy: Strategy,
    terms: L,
    present: spec_fn(Seq<u8>) -> bool,
)
    requires
        crate::query::holds(q, present),
        forall|gram: Seq<u8>| !#[trigger] present(gram),
    ensures
        crate::eval::resolution(q, id_space, strategy, terms) matches Ok(plan) ==> plan
            is All,
    decreases q, 0nat,
{
    match q {
        Query::All => {},
        Query::Gram(gram) => {
            assert(!present(gram@));
        },
        Query::And(subs) => {
            assert(crate::query::all_hold(subs@, present));
            lemma_and_unconstrained(subs@, 0, id_space, strategy, terms, present);
        },
        Query::Or(subs) => {
            assert(crate::query::any_holds(subs@, present));
            let k = choose|k: int|
                0 <= k < subs@.len() && crate::query::holds(#[trigger] subs@[k], present);
            lemma_or_unconstrained(subs@, 0, Seq::empty(), k, id_space, strategy, terms, present);
        },
    }
}

proof fn lemma_and_unconstrained<L: TermLookup>(
    subs: Seq<Query>,
    i: nat,
    id_space: u32,
    strategy: Strategy,
    terms: L,
    present: spec_fn(Seq<u8>) -> bool,
)
    requires
        crate::query::all_hold(subs, present),
        forall|gram: Seq<u8>| !#[trigger] present(gram),
    ensures
        crate::eval::and_resolution(
            subs,
            i,
            Seq::empty(),
            id_space,
            strategy,
            terms,
        ) matches Ok(plan) ==> plan is All,
    decreases subs, subs.len() - i,
{
    if i >= subs.len() {
        let none = Seq::<crate::eval::Plan>::empty();
        reveal(Seq::filter);
        assert(crate::eval::pruned(none, strategy) is All);
    } else {
        assert(crate::query::holds(subs[i as int], present));
        lemma_unconstrained(subs[i as int], id_space, strategy, terms, present);
        lemma_and_unconstrained(subs, i + 1, id_space, strategy, terms, present);
    }
}

proof fn lemma_or_unconstrained<L: TermLookup>(
    subs: Seq<Query>,
    i: nat,
    kept: Seq<crate::eval::Plan>,
    hit: int,
    id_space: u32,
    strategy: Strategy,
    terms: L,
    present: spec_fn(Seq<u8>) -> bool,
)
    requires
        i <= hit < subs.len(),
        crate::query::holds(subs[hit], present),
        forall|gram: Seq<u8>| !#[trigger] present(gram),
    ensures
        crate::eval::or_resolution(subs, i, kept, id_space, strategy, terms) matches Ok(plan)
            ==> plan is All,
    decreases subs, subs.len() - i,
{
    if i == hit {
        lemma_unconstrained(subs[hit], id_space, strategy, terms, present);
    } else {
        lemma_or_unconstrained(subs, i + 1, kept, hit, id_space, strategy, terms, present);
        if let Ok(plan) = crate::eval::resolution(subs[i as int], id_space, strategy, terms) {
            lemma_or_unconstrained(
                subs,
                i + 1,
                kept.push(plan),
                hit,
                id_space,
                strategy,
                terms,
                present,
            );
        }
    }
}

/// Bytes `from..to` of a document lie as close together as the extent says that matches do.
pub open spec fn extent_holds(extent: SearchExtent, max_line_len: u32, from: int, to: int) -> bool {
    match extent {
        SearchExtent::Document => true,
        SearchExtent::Bytes { span } => to - from <= span,
        SearchExtent::Lines => max_line_len == u32::MAX || to - from <= max_line_len + 1,
    }
}

/// The root of a pattern matches bytes `from..to` of a document.
pub open spec fn matched_at(
    matched: spec_fn(int, Seq<u8>) -> bool,
    body: Seq<u8>,
    from: int,
    to: int,
) -> bool {
    0 <= from <= to <= body.len() && matched(0, body.subrange(from, to))
}

/// Document `d` is indexed: its trigrams by block, other grams by document, under their keys.
pub open spec fn grams_indexed(
    strategy: Strategy,
    grams: spec_fn(Seq<u8>) -> Seq<Seq<u8>>,
    key: spec_fn(Seq<u8>) -> Seq<u8>,
    lists: Seq<GramList>,
    tables: crate::format::SegmentTables,
    body: Seq<u8>,
    d: int,
) -> bool {
    match strategy {
        Strategy::Trigram => {
            &&& forall|literal: Seq<u8>| #[trigger]
                grams(literal) == crate::planner::trigrams_of(literal)
            &&& forall|gram: Seq<u8>| #[trigger] key(gram) == gram
            &&& document_indexed(lists, body, crate::candidate::blocks_before(tables, d as nat))
        },
        Strategy::Sparse => crate::planner::covers(
            grams,
            body,
            |gram: Seq<u8>| crate::postings::listed(lists, d as u32, key(gram)),
        ),
    }
}

/// The lists were written in one of the two ways, and what was read of them was decoded.
pub open spec fn index_written<L: TermLookup>(
    terms: L,
    lists: Seq<GramList>,
    decoded: Map<u64, Vec<u32>>,
    id_space: u32,
    key: spec_fn(Seq<u8>) -> Seq<u8>,
) -> bool {
    &&& crate::postings::lists_within(lists, id_space)
    &&& crate::postings::fixed_written(terms, lists, decoded, id_space, key)
        || crate::delta_postings::delta_written(terms, lists, decoded, id_space, key)
}

/// How many ids postings have: one for each block, or one for each document.
pub open spec fn posting_space(strategy: Strategy, tables: crate::format::SegmentTables) -> u32 {
    match strategy {
        Strategy::Trigram => crate::candidate::blocks_before(
            tables,
            tables.documents@.len(),
        ) as u32,
        Strategy::Sparse => tables.documents@.len() as u32,
    }
}

/// The tables of a segment and the first blocks of its documents, as they belong together.
pub open spec fn segment_fits(ex: BlockExpansion) -> bool {
    &&& ex.bases@ == crate::candidate::block_bases(*ex.tables)
    &&& crate::candidate::valid_bases(ex.bases@)
    &&& crate::candidate::blocks_before(*ex.tables, ex.tables.documents@.len()) <= u32::MAX
    &&& ex.tables.documents@.len() <= u32::MAX
}

/// A selection keeps document `d`.
pub open spec fn document_found(
    strategy: Strategy,
    selected: Option<Set<u32>>,
    tables: crate::format::SegmentTables,
    d: int,
) -> bool {
    match strategy {
        Strategy::Trigram => document_selected(selected, tables, d),
        Strategy::Sparse => selected matches Some(ids) ==> ids.contains(d as u32),
    }
}

proof fn lemma_index_complete<L: TermLookup>(
    terms: L,
    lists: Seq<GramList>,
    decoded: Map<u64, Vec<u32>>,
    id_space: u32,
    key: spec_fn(Seq<u8>) -> Seq<u8>,
)
    requires
        index_written(terms, lists, decoded, id_space, key),
    ensures
        crate::eval::postings_complete(
            terms,
            id_space,
            decoded,
            |id: u32, gram: Seq<u8>| crate::postings::listed(lists, id, key(gram)),
        ),
{
    if crate::postings::fixed_written(terms, lists, decoded, id_space, key) {
        crate::postings::keyed_postings_are_complete(terms, lists, decoded, id_space, key);
    } else {
        crate::delta_postings::keyed_delta_postings_are_complete(
            terms,
            lists,
            decoded,
            id_space,
            key,
        );
    }
}

/// The block of byte `q` of a document whose first block is block `base`.
spec fn at_block(base: nat, q: int, x: u32) -> bool {
    x == base + q / crate::candidate::CANDIDATE_BLOCK_BYTES as int
}

/// Bytes as close together as the extent says lie in blocks that the widening of one reaches from
/// the other.
proof fn lemma_extent_reaches(ex: BlockExpansion, d: int, from: int, to: int, q: int, z: int)
    requires
        segment_fits(ex),
        0 <= d < ex.tables.documents@.len(),
        0 <= from <= q < to <= ex.tables.documents@[d].decoded_size,
        from <= z < to,
        extent_holds(ex.extent, ex.tables.documents@[d].max_line_len, from, to),
    ensures
        ({
            let base = crate::candidate::blocks_before(*ex.tables, d as nat);
            let block = crate::candidate::CANDIDATE_BLOCK_BYTES as int;
            let x = (base + q / block) as u32;
            let range = crate::eval::Expand::range(&ex, x);
            &&& x == base + q / block
            &&& base + z / block < crate::candidate::blocks_before(*ex.tables, (d + 1) as nat)
                <= u32::MAX
            &&& range.0 <= base + z / block <= range.1
        }),
{
    let tables = *ex.tables;
    let bases = ex.bases@;
    let n = tables.documents@.len();
    let base = crate::candidate::blocks_before(tables, d as nat);
    let end = crate::candidate::blocks_before(tables, (d + 1) as nat);
    crate::candidate::lemma_blocks_before_mono(tables, (d + 1) as nat, n);
    assert(bases[d] == base && bases[d + 1] == end);
    let count = crate::candidate::block_count(tables.documents@[d].decoded_size);
    assert(end == base + count);
    let block = crate::candidate::CANDIDATE_BLOCK_BYTES as int;
    assert(q / block < count && z / block < count);
    let x = (base + q / block) as u32;
    assert(crate::candidate::holds_block(bases, d, x));
    let c = crate::candidate::document_of(bases, x);
    assert(crate::candidate::holds_block(bases, c, x));
    crate::candidate::lemma_block_document_unique(bases, c, d, x);
    let line = tables.documents@[d].max_line_len;
    let low = if q < z {
        q as nat
    } else {
        z as nat
    };
    let high = if q < z {
        z as nat
    } else {
        q as nat
    };
    match ex.extent {
        SearchExtent::Document => {},
        SearchExtent::Bytes { span } => {
            crate::candidate::span_stays_within_slack(low, high, span, count as int, line);
        },
        SearchExtent::Lines => {
            if line < u32::MAX {
                crate::candidate::line_stays_within_slack(low, high, line, count as int);
            }
        },
    }
}

/// No match is lost: where a document is indexed and the pattern that a query was planned from
/// matches in it, the query selects the document. Where postings name blocks it selects every block
/// that the match touches, as long as the match is no longer than the extent says.
pub proof fn matching_documents_are_candidates<L: TermLookup>(
    query: Query,
    nodes: Seq<crate::planner::NodeView>,
    grams: spec_fn(Seq<u8>) -> Seq<Seq<u8>>,
    key: spec_fn(Seq<u8>) -> Seq<u8>,
    strategy: Strategy,
    matched: spec_fn(int, Seq<u8>) -> bool,
    from: int,
    to: int,
    body: Seq<u8>,
    d: int,
    lists: Seq<GramList>,
    terms: L,
    decoded: Map<u64, Vec<u32>>,
    ex: BlockExpansion,
    selected: Option<Set<u32>>,
    z: int,
)
    requires
        crate::planner::breadth_first(crate::planner::places_of(nodes)),
        crate::planner::matches_nodes(nodes, matched),
        query.tree() == crate::planner::node_tree(grams, nodes, 0),
        matched_at(matched, body, from, to),
        segment_fits(ex),
        0 <= d < ex.tables.documents@.len(),
        ex.tables.documents@[d].decoded_size == body.len(),
        strategy == Strategy::Trigram ==> extent_holds(
            ex.extent,
            ex.tables.documents@[d].max_line_len,
            from,
            to,
        ),
        grams_indexed(strategy, grams, key, lists, *ex.tables, body, d),
        index_written(terms, lists, decoded, posting_space(strategy, *ex.tables), key),
        crate::eval::resolution(
            query,
            posting_space(strategy, *ex.tables),
            strategy,
            terms,
        ) matches Ok(plan) && crate::candidate::plan_selection(plan, decoded, strategy, ex) == Ok::<
            Option<Set<u32>>,
            crate::error::IndexError,
        >(selected),
    ensures
        document_found(strategy, selected, *ex.tables, d),
        strategy == Strategy::Trigram && from <= z < to ==> (selected matches Some(ids)
            ==> ids.contains(
            (crate::candidate::blocks_before(*ex.tables, d as nat) + z
                / crate::candidate::CANDIDATE_BLOCK_BYTES as int) as u32,
        )),
{
    let text = body.subrange(from, to);
    match strategy {
        Strategy::Trigram => {
            if from < to {
                lemma_block_selected(
                    query,
                    nodes,
                    grams,
                    key,
                    matched,
                    from,
                    to,
                    body,
                    d,
                    lists,
                    terms,
                    decoded,
                    ex,
                    selected,
                    from,
                );
                let first = (crate::candidate::blocks_before(*ex.tables, d as nat) + from
                    / crate::candidate::CANDIDATE_BLOCK_BYTES as int) as u32;
                lemma_extent_reaches(ex, d, from, to, from, from);
                if let Some(ids) = selected {
                    assert(ids.contains(first));
                }
                if from <= z < to {
                    lemma_block_selected(
                        query,
                        nodes,
                        grams,
                        key,
                        matched,
                        from,
                        to,
                        body,
                        d,
                        lists,
                        terms,
                        decoded,
                        ex,
                        selected,
                        z,
                    );
                }
            } else {
                let none = |gram: Seq<u8>| false;
                assert(crate::planner::covers(grams, text, none)) by {
                    assert forall|literal: Seq<u8>, k: int|
                        crate::planner::is_part(literal, text) && 0 <= k
                            < grams(literal).len() implies none(#[trigger] grams(literal)[k]) by {
                        assert(grams(literal) == crate::planner::trigrams_of(literal));
                        let at = choose|at: int| crate::planner::part_at(literal, text, at);
                        assert(literal.len() == 0);
                    }
                }
                assert(crate::planner::part_at(text, text, 0)) by {
                    assert(text.subrange(0, text.len() as int) =~= text);
                }
                crate::planner::planned_queries_keep_matches(
                    query,
                    grams,
                    nodes,
                    matched,
                    text,
                    text,
                    none,
                );
                lemma_unconstrained(
                    query,
                    posting_space(strategy, *ex.tables),
                    strategy,
                    terms,
                    none,
                );
            }
        },
        Strategy::Sparse => {
            let id = d as u32;
            let id_space = posting_space(strategy, *ex.tables);
            let has = |id: u32, gram: Seq<u8>| crate::postings::listed(lists, id, key(gram));
            let here = |gram: Seq<u8>| crate::postings::listed(lists, d as u32, key(gram));
            assert(crate::planner::part_at(text, body, from));
            crate::planner::planned_queries_keep_matches(
                query,
                grams,
                nodes,
                matched,
                text,
                body,
                here,
            );
            assert(here =~= |gram: Seq<u8>| has(id, gram));
            lemma_index_complete(terms, lists, decoded, id_space, key);
            crate::eval::candidates_cover_matches(
                query,
                id_space,
                strategy,
                terms,
                decoded,
                crate::eval::NoExpansion,
                has,
                id,
            );
        },
    }
}

/// A query selects the block of byte `z` of a match.
proof fn lemma_block_selected<L: TermLookup>(
    query: Query,
    nodes: Seq<crate::planner::NodeView>,
    grams: spec_fn(Seq<u8>) -> Seq<Seq<u8>>,
    key: spec_fn(Seq<u8>) -> Seq<u8>,
    matched: spec_fn(int, Seq<u8>) -> bool,
    from: int,
    to: int,
    body: Seq<u8>,
    d: int,
    lists: Seq<GramList>,
    terms: L,
    decoded: Map<u64, Vec<u32>>,
    ex: BlockExpansion,
    selected: Option<Set<u32>>,
    z: int,
)
    requires
        crate::planner::breadth_first(crate::planner::places_of(nodes)),
        crate::planner::matches_nodes(nodes, matched),
        query.tree() == crate::planner::node_tree(grams, nodes, 0),
        matched_at(matched, body, from, to),
        segment_fits(ex),
        0 <= d < ex.tables.documents@.len(),
        ex.tables.documents@[d].decoded_size == body.len(),
        extent_holds(ex.extent, ex.tables.documents@[d].max_line_len, from, to),
        grams_indexed(Strategy::Trigram, grams, key, lists, *ex.tables, body, d),
        index_written(terms, lists, decoded, posting_space(Strategy::Trigram, *ex.tables), key),
        crate::eval::resolution(
            query,
            posting_space(Strategy::Trigram, *ex.tables),
            Strategy::Trigram,
            terms,
        ) matches Ok(plan) && crate::eval::select(plan, decoded, ex) == Ok::<
            Option<Set<u32>>,
            crate::error::IndexError,
        >(selected),
        from <= z < to,
    ensures
        selected matches Some(ids) ==> ids.contains(
            (crate::candidate::blocks_before(*ex.tables, d as nat) + z
                / crate::candidate::CANDIDATE_BLOCK_BYTES as int) as u32,
        ),
{
    let tables = *ex.tables;
    let base = crate::candidate::blocks_before(tables, d as nat);
    let end = crate::candidate::blocks_before(tables, (d + 1) as nat);
    let count = crate::candidate::block_count(body.len() as u64);
    let block = crate::candidate::CANDIDATE_BLOCK_BYTES as int;
    let id_space = posting_space(Strategy::Trigram, tables);
    let text = body.subrange(from, to);
    let has = |id: u32, gram: Seq<u8>| crate::postings::listed(lists, id, key(gram));
    let near = |x: u32| exists|q: int| from <= q < to && #[trigger] at_block(base, q, x);
    let here = crate::eval::grams_near(has, near, id_space);
    let id = (base + z / block) as u32;
    lemma_extent_reaches(ex, d, from, to, z, z);
    crate::candidate::lemma_blocks_before_mono(tables, (d + 1) as nat, tables.documents@.len());
    crate::planner::trigrams_cover_documents(text);
    let part = |gram: Seq<u8>| crate::planner::is_part(gram, text);
    let trigrams = |literal: Seq<u8>| crate::planner::trigrams_of(literal);
    assert(crate::planner::covers(grams, text, here)) by {
        assert forall|literal: Seq<u8>, k: int|
            crate::planner::is_part(literal, text) && 0 <= k < grams(literal).len() implies here(
            #[trigger] grams(literal)[k],
        ) by {
            assert(grams(literal) == trigrams(literal));
            let gram = trigrams(literal)[k];
            assert(part(gram));
            assert(gram.len() == 3);
            let a = choose|a: int| crate::planner::part_at(gram, text, a);
            let at = from + a;
            assert(body.subrange(at, at + 3) =~= gram) by {
                assert(text.subrange(a, a + 3) == gram);
            }
            crate::postings::trigrams_count_for_their_blocks(body, at);
            let b = at / block;
            assert(0 <= b < count);
            assert(crate::planner::trigrams_of(
                crate::postings::block_window(body, b),
            ).contains(gram));
            let x = (base + b) as u32;
            lemma_extent_reaches(ex, d, from, to, at, z);
            assert(at_block(base, at, x));
            assert(near(x) && has(x, gram));
        }
    }
    assert(crate::planner::part_at(text, text, 0)) by {
        assert(text.subrange(0, text.len() as int) =~= text);
    }
    crate::planner::planned_queries_keep_matches(query, grams, nodes, matched, text, text, here);
    lemma_index_complete(terms, lists, decoded, id_space, key);
    assert forall|x: u32| #[trigger] near(x) implies crate::eval::Expand::range(&ex, x).0 <= id
        <= crate::eval::Expand::range(&ex, x).1 by {
        let q = choose|q: int| from <= q < to && #[trigger] at_block(base, q, x);
        lemma_extent_reaches(ex, d, from, to, q, z);
    }
    crate::eval::widened_candidates_cover_matches(
        query,
        id_space,
        Strategy::Trigram,
        terms,
        decoded,
        ex,
        has,
        near,
        id,
    );
}

/// A search reports document `d` of a segment: the query selects it, it is not dead, and the
/// pattern matches in it.
pub open spec fn document_hit(
    pattern: Seq<char>,
    strategy: Strategy,
    selected: Option<Set<u32>>,
    tables: crate::format::SegmentTables,
    dead: crate::format::DeadSet,
    body: Seq<u8>,
    d: int,
) -> bool {
    &&& document_found(strategy, selected, tables, d)
    &&& !dead.documents@.contains(d as u32)
    &&& crate::program::line_matches(pattern, body)
}

/// A match that the pattern's nodes account for lies somewhere in a document, no further apart than
/// the extent says.
pub open spec fn accounted_within(
    pattern: Seq<char>,
    body: Seq<u8>,
    extent: SearchExtent,
    max_line_len: u32,
) -> bool {
    exists|from: int, to: int| #[trigger]
        crate::program::accounted_at(pattern, body, from, to) && extent_holds(
            extent,
            max_line_len,
            from,
            to,
        )
}

/// What a search finds in a document reaches no further than whole documents and whole lines do, so
/// for these extents nothing more has to be known of a pattern than that it was searched for.
pub proof fn line_matches_stay_within_extents(
    pattern: Seq<char>,
    body: Seq<u8>,
    extent: SearchExtent,
)
    requires
        crate::program::line_accounted(pattern, body),
        extent !is Bytes,
    ensures
        accounted_within(
            pattern,
            body,
            extent,
            crate::lines::length_field(crate::lines::longest_line(body, body.len() as int)),
        ),
{
    let (from, to) = choose|from: int, to: int| #[trigger]
        crate::program::accounted_at(pattern, body, from, to) && crate::program::one_line(
            body,
            from,
            to,
        );
    crate::lines::lines_are_as_long_as_measured(body, from, to);
    assert(crate::program::accounted_at(pattern, body, from, to));
}

/// A planned query never loses a document that a search finds: the query holds of the document's
/// grams.
pub proof fn plans_keep_documents_that_match(
    pattern: Seq<char>,
    query: Query,
    grams: spec_fn(Seq<u8>) -> Seq<Seq<u8>>,
    document: Seq<u8>,
    has: spec_fn(Seq<u8>) -> bool,
)
    requires
        crate::planner::breadth_first(
            crate::planner::places_of(crate::planner::pattern_nodes(pattern)),
        ),
        query.tree() == crate::planner::node_tree(
            grams,
            crate::planner::pattern_nodes(pattern),
            0,
        ),
        crate::planner::covers(grams, document, has),
        crate::program::accounted(pattern, document),
    ensures
        crate::query::holds(query, has),
{
    let (from, to) = choose|from: int, to: int| #[trigger]
        crate::program::accounted_at(pattern, document, from, to);
    let text = document.subrange(from, to);
    let matched = choose|matched: spec_fn(int, Seq<u8>) -> bool| #[trigger]
        crate::program::root_matches(pattern, matched, text);
    assert(crate::planner::part_at(text, document, from));
    crate::planner::planned_queries_keep_matches(
        query,
        grams,
        crate::planner::pattern_nodes(pattern),
        matched,
        text,
        document,
        has,
    );
}

/// An indexed search finds what a full scan finds, whatever the strategy and the extent: of the
/// documents that are not dead, exactly those in which the pattern matches in a line. Where it does,
/// searching the document has shown a match that the pattern's nodes account for; where postings name
/// blocks, one no longer than the extent says.
pub proof fn indexed_searches_find_what_scans_find<L: TermLookup>(
    pattern: Seq<char>,
    query: Query,
    grams: spec_fn(Seq<u8>) -> Seq<Seq<u8>>,
    key: spec_fn(Seq<u8>) -> Seq<u8>,
    strategy: Strategy,
    bodies: Seq<Seq<u8>>,
    dead: crate::format::DeadSet,
    lists: Seq<GramList>,
    terms: L,
    decoded: Map<u64, Vec<u32>>,
    ex: BlockExpansion,
    selected: Option<Set<u32>>,
    d: int,
)
    requires
        crate::planner::breadth_first(
            crate::planner::places_of(crate::planner::pattern_nodes(pattern)),
        ),
        query.tree() == crate::planner::node_tree(
            grams,
            crate::planner::pattern_nodes(pattern),
            0,
        ),
        segment_fits(ex),
        bodies.len() == ex.tables.documents@.len(),
        0 <= d < bodies.len(),
        crate::program::line_matches(pattern, bodies[d]) ==> accounted_within(
            pattern,
            bodies[d],
            if strategy == Strategy::Trigram {
                ex.extent
            } else {
                SearchExtent::Document
            },
            ex.tables.documents@[d].max_line_len,
        ),
        ex.tables.documents@[d].decoded_size == bodies[d].len(),
        grams_indexed(strategy, grams, key, lists, *ex.tables, bodies[d], d),
        index_written(terms, lists, decoded, posting_space(strategy, *ex.tables), key),
        crate::eval::resolution(
            query,
            posting_space(strategy, *ex.tables),
            strategy,
            terms,
        ) matches Ok(plan) && crate::candidate::plan_selection(plan, decoded, strategy, ex) == Ok::<
            Option<Set<u32>>,
            crate::error::IndexError,
        >(selected),
    ensures
        document_hit(pattern, strategy, selected, *ex.tables, dead, bodies[d], d) <==> (
        !dead.documents@.contains(d as u32) && crate::program::line_matches(pattern, bodies[d])),
{
    if crate::program::line_matches(pattern, bodies[d]) {
        let extent = if strategy == Strategy::Trigram {
            ex.extent
        } else {
            SearchExtent::Document
        };
        let line = ex.tables.documents@[d].max_line_len;
        let (from, to) = choose|from: int, to: int| #[trigger]
            crate::program::accounted_at(pattern, bodies[d], from, to) && extent_holds(
                extent,
                line,
                from,
                to,
            );
        let matched = choose|matched: spec_fn(int, Seq<u8>) -> bool| #[trigger]
            crate::program::root_matches(pattern, matched, bodies[d].subrange(from, to));
        assert(matched_at(matched, bodies[d], from, to));
        matching_documents_are_candidates(
            query,
            crate::planner::pattern_nodes(pattern),
            grams,
            key,
            strategy,
            matched,
            from,
            to,
            bodies[d],
            d,
            lists,
            terms,
            decoded,
            ex,
            selected,
            from,
        );
    }
}

/// A search of a segment notes the keys that a full scan of it notes, in the same order: searching the
/// documents that the query selects and that are not dead finds what searching all that are not dead
/// finds. The rest is as for a single document.
pub proof fn indexed_searches_note_what_scans_note<L: TermLookup>(
    pattern: Seq<char>,
    query: Query,
    grams: spec_fn(Seq<u8>) -> Seq<Seq<u8>>,
    key: spec_fn(Seq<u8>) -> Seq<u8>,
    strategy: Strategy,
    documents: Seq<crate::addresses::DocAddress>,
    bodies: Seq<Vec<u8>>,
    dead: crate::format::DeadSet,
    lists: Seq<GramList>,
    terms: L,
    decoded: Map<u64, Vec<u32>>,
    ex: BlockExpansion,
    selected: Option<Set<u32>>,
    candidates: Seq<bool>,
    live: Seq<bool>,
)
    requires
        crate::planner::breadth_first(
            crate::planner::places_of(crate::planner::pattern_nodes(pattern)),
        ),
        query.tree() == crate::planner::node_tree(
            grams,
            crate::planner::pattern_nodes(pattern),
            0,
        ),
        segment_fits(ex),
        bodies.len() == ex.tables.documents@.len(),
        documents.len() == bodies.len(),
        forall|d: int|
            0 <= d < bodies.len() ==> {
                let body = (#[trigger] bodies[d])@;
                &&& ex.tables.documents@[d].decoded_size == body.len()
                &&& grams_indexed(strategy, grams, key, lists, *ex.tables, body, d)
                &&& crate::program::line_matches(pattern, body) ==> accounted_within(
                    pattern,
                    body,
                    if strategy == Strategy::Trigram {
                        ex.extent
                    } else {
                        SearchExtent::Document
                    },
                    ex.tables.documents@[d].max_line_len,
                )
            },
        index_written(terms, lists, decoded, posting_space(strategy, *ex.tables), key),
        crate::eval::resolution(
            query,
            posting_space(strategy, *ex.tables),
            strategy,
            terms,
        ) matches Ok(plan) && crate::candidate::plan_selection(plan, decoded, strategy, ex) == Ok::<
            Option<Set<u32>>,
            crate::error::IndexError,
        >(selected),
        candidates == Seq::new(
            bodies.len(),
            |d: int|
                document_found(strategy, selected, *ex.tables, d) && !dead.documents@.contains(
                    d as u32,
                ),
        ),
        live == Seq::new(bodies.len(), |d: int| !dead.documents@.contains(d as u32)),
    ensures
        ({
            let searched = crate::run::flagged(documents, candidates);
            let scanned = crate::run::flagged(documents, live);
            crate::run::hit_keys(
                pattern,
                searched,
                crate::run::flagged_bodies(bodies, candidates),
                searched.len() as int,
            ) == crate::run::hit_keys(
                pattern,
                scanned,
                crate::run::flagged_bodies(bodies, live),
                scanned.len() as int,
            )
        }),
{
    let texts = bodies.map_values(|body: Vec<u8>| body@);
    assert forall|d: int|
        0 <= d < bodies.len() && crate::program::line_matches(pattern, (#[trigger] bodies[d])@)
        implies candidates[d] == live[d] by {
        assert(texts[d] == bodies[d]@);
        indexed_searches_find_what_scans_find(
            pattern,
            query,
            grams,
            key,
            strategy,
            texts,
            dead,
            lists,
            terms,
            decoded,
            ex,
            selected,
            d,
        );
    }
    crate::run::selections_find_alike(pattern, documents, bodies, candidates, live);
}

/// The segments of a merge, their lists and what became of their documents belong together.
pub open spec fn merge_fits(
    strategy: Strategy,
    victims: Seq<crate::joining::VictimTerms>,
    olds: Seq<Seq<GramList>>,
    tables: Seq<crate::format::SegmentTables>,
    merged: crate::format::SegmentTables,
    docs: Seq<(usize, u32)>,
    remaps: Seq<Vec<Option<u32>>>,
    new_bases: Seq<u32>,
) -> bool {
    &&& tables.len() <= usize::MAX
    &&& victims.len() == tables.len()
    &&& olds.len() == tables.len()
    &&& crate::compact::remaps_of(remaps, docs, tables)
    &&& forall|v: int|
        0 <= v < tables.len() ==> (#[trigger] tables[v]).documents@.len() <= u32::MAX && match strategy {
            Strategy::Trigram => crate::joining::victim_fits(
                victims[v],
                olds[v],
                tables[v],
                remaps[v]@,
            ),
            Strategy::Sparse => crate::joining::document_victim_fits(
                victims[v],
                olds[v],
                tables[v],
                remaps[v]@,
            ),
        }
    &&& merged.documents@.len() == docs.len()
    &&& docs.len() <= u32::MAX
    &&& forall|k: int|
        0 <= k < docs.len() ==> (#[trigger] merged.documents@[k]).decoded_size
            == tables[docs[k].0 as int].documents@[docs[k].1 as int].decoded_size
    &&& new_bases == crate::candidate::block_bases(merged)
    &&& crate::candidate::valid_bases(new_bases)
    &&& crate::candidate::blocks_before(merged, merged.documents@.len()) <= u32::MAX
}

/// Documents stay indexed through a merge, whatever the strategy: a document that was indexed in
/// its segment is indexed in the merged one.
pub proof fn merged_documents_stay_indexed(
    strategy: Strategy,
    grams: spec_fn(Seq<u8>) -> Seq<Seq<u8>>,
    key: spec_fn(Seq<u8>) -> Seq<u8>,
    lists: Seq<GramList>,
    victims: Seq<crate::joining::VictimTerms>,
    olds: Seq<Seq<GramList>>,
    tables: Seq<crate::format::SegmentTables>,
    merged: crate::format::SegmentTables,
    docs: Seq<(usize, u32)>,
    remaps: Seq<Vec<Option<u32>>>,
    new_bases: Seq<u32>,
    body: Seq<u8>,
    m: int,
)
    requires
        merge_fits(strategy, victims, olds, tables, merged, docs, remaps, new_bases),
        crate::joining::first_unread(strategy, victims, new_bases, 0, 0) is None,
        forall|gram: Seq<u8>, id: u32| #[trigger]
            crate::postings::listed(lists, id, gram) <==> exists|v: int, t: int| #[trigger]
                crate::joining::term_keeps(strategy, victims, new_bases, v, t, gram, id),
        0 <= m < docs.len(),
        merged.documents@[m].decoded_size == body.len(),
        grams_indexed(
            strategy,
            grams,
            key,
            olds[docs[m].0 as int],
            tables[docs[m].0 as int],
            body,
            docs[m].1 as int,
        ),
    ensures
        grams_indexed(strategy, grams, key, lists, merged, body, m),
{
    let s = docs[m].0 as int;
    let d = docs[m].1 as int;
    match strategy {
        Strategy::Trigram => {
            assert forall|v: int| 0 <= v < tables.len() implies crate::joining::victim_fits(
                #[trigger] victims[v],
                olds[v],
                tables[v],
                remaps[v]@,
            ) && tables[v].documents@.len() <= u32::MAX by {
                assert(tables[v].documents@.len() <= u32::MAX);
            }
            assert forall|b: int, gram: Seq<u8>|
                0 <= b < crate::candidate::block_count(body.len() as u64)
                    && #[trigger] crate::planner::trigrams_of(
                    crate::postings::block_window(body, b),
                ).contains(gram) implies crate::postings::listed(
                lists,
                (crate::candidate::blocks_before(merged, m as nat) + b) as u32,
                gram,
            ) by {
                crate::joining::merged_postings_keep_grams(
                    lists,
                    victims,
                    olds,
                    tables,
                    merged,
                    docs,
                    remaps,
                    new_bases,
                    m,
                    b,
                    gram,
                );
            }
        },
        Strategy::Sparse => {
            assert forall|v: int| 0 <= v < tables.len() implies crate::joining::document_victim_fits(
                #[trigger] victims[v],
                olds[v],
                tables[v],
                remaps[v]@,
            ) && tables[v].documents@.len() <= u32::MAX by {
                assert(tables[v].documents@.len() <= u32::MAX);
            }
            let before = |gram: Seq<u8>| crate::postings::listed(olds[s], d as u32, key(gram));
            let after = |gram: Seq<u8>| crate::postings::listed(lists, m as u32, key(gram));
            assert forall|literal: Seq<u8>, k: int|
                crate::planner::is_part(literal, body) && 0 <= k < grams(literal).len() implies after(
                #[trigger] grams(literal)[k],
            ) by {
                let gram = grams(literal)[k];
                assert(before(gram));
                crate::joining::merged_document_postings_keep_grams(
                    lists,
                    victims,
                    olds,
                    tables,
                    docs,
                    remaps,
                    new_bases,
                    m,
                    key(gram),
                );
            }
        },
    }
}

/// Documents whose grams are listed by document, under their keys, are indexed.
pub proof fn joined_documents_are_indexed(
    grams: spec_fn(Seq<u8>) -> Seq<Seq<u8>>,
    key: spec_fn(Seq<u8>) -> Seq<u8>,
    lists: Seq<GramList>,
    entries: Seq<(Seq<u8>, Seq<u32>)>,
    tables: crate::format::SegmentTables,
    body: Seq<u8>,
    d: int,
)
    requires
        forall|gram: Seq<u8>, id: u32| #[trigger]
            crate::postings::listed(lists, id, gram) <==> crate::joining::entry_lists(
                entries,
                entries.len() as int,
                gram,
                id,
            ),
        crate::planner::covers(
            grams,
            body,
            |gram: Seq<u8>|
                crate::joining::entry_lists(
                    entries,
                    entries.len() as int,
                    key(gram),
                    d as u32,
                ),
        ),
    ensures
        grams_indexed(Strategy::Sparse, grams, key, lists, tables, body, d),
{
    let before = |gram: Seq<u8>|
        crate::joining::entry_lists(entries, entries.len() as int, key(gram), d as u32);
    let after = |gram: Seq<u8>| crate::postings::listed(lists, d as u32, key(gram));
    assert forall|literal: Seq<u8>, k: int|
        crate::planner::is_part(literal, body) && 0 <= k < grams(literal).len() implies after(
        #[trigger] grams(literal)[k],
    ) by {
        assert(before(grams(literal)[k]));
    }
}

/// The hits of a batch are the keys of its documents that match, in their order and each once.
pub proof fn hits_are_the_documents_that_match(
    pattern: Seq<char>,
    documents: Seq<crate::addresses::DocAddress>,
    bodies: Seq<Vec<u8>>,
    n: int,
)
    requires
        0 <= n <= documents.len(),
        documents.len() == bodies.len(),
    ensures
        crate::run::hit_keys(pattern, documents, bodies, n) == Seq::new(n as nat, |d: int| d).filter(
            |d: int| crate::program::line_matches(pattern, bodies[d]@),
        ).map_values(|d: int| documents[d].display_key@),
    decreases n,
{
    reveal(Seq::filter);
    let all = Seq::new(n as nat, |d: int| d);
    let hits = all.filter(|d: int| crate::program::line_matches(pattern, bodies[d]@));
    if n > 0 {
        hits_are_the_documents_that_match(pattern, documents, bodies, n - 1);
        assert(all.drop_last() =~= Seq::new((n - 1) as nat, |d: int| d));
    }
    assert(crate::run::hit_keys(pattern, documents, bodies, n) =~= hits.map_values(
        |d: int| documents[d].display_key@,
    ));
}

} // verus!
