//! Gram planning: from a pattern to the grams that every match must contain.

use vstd::prelude::*;
use vstd::slice::slice_to_vec;

use regex_syntax::hir::literal::{ExtractKind, Extractor};
use regex_syntax::hir::HirKind::{self, Class, Empty, Literal, Look};
use regex_syntax::ParserBuilder;
use std::collections::VecDeque;

use crate::error::IndexError;
use crate::query::Query;
use crate::query::QueryTree;
use crate::text::bytes_eq;

verus! {

/// What a node of a parsed pattern says of its children.
#[derive(Debug, Clone, Copy, PartialEq, Eq, Structural)]
pub enum Shape {
    /// Its children one after the other.
    Concat,
    /// One of its children.
    Alternation,
    /// Its child, captured.
    Capture,
    /// Its child, at least `min` times.
    Repetition { min: u32 },
    /// Nothing: it has no children.
    Leaf,
}

/// A node's place in a parsed pattern. Nodes are listed breadth first, so a node's children
/// stand together, after all children of the nodes before it.
#[derive(Debug, Clone, Copy, PartialEq, Eq, Structural)]
pub struct PatternShape {
    pub shape: Shape,
    pub children: usize,
}

/// A node of a parsed pattern: its place, and the literals one of which every match starts with,
/// and ends with. `None` where no finite list of literals does.
#[derive(Debug)]
pub struct PatternNode {
    pub place: PatternShape,
    pub prefixes: Option<Vec<Vec<u8>>>,
    pub suffixes: Option<Vec<Vec<u8>>>,
}

/// The model of `PatternNode`.
pub struct NodeView {
    pub place: PatternShape,
    pub prefixes: Option<Seq<Seq<u8>>>,
    pub suffixes: Option<Seq<Seq<u8>>>,
}

pub open spec fn literal_views(list: Option<Vec<Vec<u8>>>) -> Option<Seq<Seq<u8>>> {
    match list {
        None => None,
        Some(literals) => Some(literals@.map_values(|literal: Vec<u8>| literal@)),
    }
}

impl View for PatternNode {
    type V = NodeView;

    open spec fn view(&self) -> NodeView {
        NodeView {
            place: self.place,
            prefixes: literal_views(self.prefixes),
            suffixes: literal_views(self.suffixes),
        }
    }
}

pub open spec fn node_views(nodes: Seq<PatternNode>) -> Seq<NodeView> {
    nodes.map_values(|node: PatternNode| node@)
}

/// Where the children of node `i` start.
pub open spec fn first_child(places: Seq<PatternShape>, i: int) -> int
    decreases i,
{
    if i <= 0 {
        1
    } else {
        first_child(places, i - 1) + places[i - 1].children
    }
}

/// The children stand after their parents, and every node but the first is a child.
pub open spec fn breadth_first(places: Seq<PatternShape>) -> bool {
    &&& places.len() > 0
    &&& first_child(places, places.len() as int) == places.len()
    &&& forall|i: int| 0 <= i < places.len() ==> #[trigger] first_child(places, i) > i
    &&& forall|i: int|
        0 <= i < places.len() ==> ((#[trigger] places[i]).shape is Capture || places[i].shape is Repetition)
            ==> places[i].children == 1
}

/// The places of the nodes of `pattern`, parsed with UTF-8 mode off, or nothing where it is no
/// regular expression.
pub uninterp spec fn pattern_places(pattern: Seq<char>) -> Option<Seq<PatternShape>>;

/// For each node of `pattern`, the literals of its prefixes or of its suffixes.
pub uninterp spec fn pattern_literals(pattern: Seq<char>, suffix: bool) -> Option<
    Seq<Option<Seq<Seq<u8>>>>,
>;

/// Parses `pattern` with `regex_syntax::ParserBuilder` (UTF-8 mode off) and lists the nodes of
/// the `Hir` it yields by `HirKind::subs`, breadth first: a node's `HirKind`, and how many
/// sub-expressions it has. That the nodes come breadth first is claimed of the list, and that a
/// capture and a repetition have one sub-expression; which pattern parses to what is not.
#[verifier::external_body]
fn parse_places(pattern: &str) -> (places: Option<Vec<PatternShape>>)
    ensures
        match places {
            Some(list) => pattern_places(pattern@) == Some(list@) && breadth_first(list@),
            None => pattern_places(pattern@) is None,
        },
{
    let hir = ParserBuilder::new().utf8(false).build().parse(pattern).ok()?;
    let (mut queue, mut places) = (VecDeque::from([&hir]), Vec::new());
    while let Some(node) = queue.pop_front() {
        let shape = match node.kind() {
            HirKind::Concat(_) => Shape::Concat,
            HirKind::Alternation(_) => Shape::Alternation,
            HirKind::Capture(_) => Shape::Capture,
            HirKind::Repetition(repetition) => Shape::Repetition { min: repetition.min },
            Empty | Literal(_) | Class(_) | Look(_) => Shape::Leaf,
        };
        let subs = node.kind().subs();
        places.push(PatternShape { shape, children: subs.len() });
        queue.extend(subs);
    }
    Some(places)
}

/// Lists, for the nodes of `pattern` in the order of `parse_places`, the literals that
/// `regex_syntax::hir::literal::Extractor` extracts from the node, of prefixes or of suffixes
/// (`Seq::literals`). That there are as many lists as nodes is claimed; which literals they hold
/// is not.
#[verifier::external_body]
fn extract_literals(pattern: &str, suffix: bool) -> (lists: Option<Vec<Option<Vec<Vec<u8>>>>>)
    ensures
        match lists {
            Some(list) => pattern_literals(pattern@, suffix) == Some(
                list@.map_values(|literals: Option<Vec<Vec<u8>>>| literal_views(literals)),
            ) && pattern_places(pattern@) is Some && pattern_places(pattern@)->0.len()
                == list@.len(),
            None => pattern_places(pattern@) is None,
        },
{
    let hir = ParserBuilder::new().utf8(false).build().parse(pattern).ok()?;
    let kind = if suffix { ExtractKind::Suffix } else { ExtractKind::Prefix };
    let mut queue = VecDeque::from([&hir]);
    let mut lists = Vec::new();
    while let Some(node) = queue.pop_front() {
        let literals = Extractor::new().kind(kind.clone()).extract(node);
        lists.push(literals.literals().map(|list| list.iter().map(|l| l.as_bytes().to_vec()).collect()));
        queue.extend(node.kind().subs());
    }
    Some(lists)
}

/// The grams that a literal must bring into every document that contains it.
pub trait Grams {
    spec fn grams_of(&self, literal: Seq<u8>) -> Seq<Seq<u8>>;

    fn grams(&self, literal: &[u8]) -> (grams: Vec<Vec<u8>>)
        ensures
            grams@.map_values(|gram: Vec<u8>| gram@) == self.grams_of(literal@),
    ;
}

/// The width of a trigram.
pub const TRIGRAM_BYTES: usize = 3;

/// Every three consecutive bytes of a literal.
#[derive(Debug, Clone, Copy)]
pub struct Trigrams;

pub open spec fn trigrams_of(literal: Seq<u8>) -> Seq<Seq<u8>> {
    if literal.len() < TRIGRAM_BYTES {
        Seq::empty()
    } else {
        Seq::new(
            (literal.len() - TRIGRAM_BYTES + 1) as nat,
            |i: int| literal.subrange(i, i + TRIGRAM_BYTES),
        )
    }
}

impl Grams for Trigrams {
    open spec fn grams_of(&self, literal: Seq<u8>) -> Seq<Seq<u8>> {
        trigrams_of(literal)
    }

    fn grams(&self, literal: &[u8]) -> (grams: Vec<Vec<u8>>) {
        let n: usize = literal.len();
        let mut grams: Vec<Vec<u8>> = Vec::new();
        if n < TRIGRAM_BYTES {
            assert(grams@.map_values(|gram: Vec<u8>| gram@) =~= trigrams_of(literal@));
            return grams;
        }
        let mut i: usize = 0;
        while i <= n - TRIGRAM_BYTES
            invariant
                n == literal.len(),
                n >= TRIGRAM_BYTES,
                i <= n - TRIGRAM_BYTES + 1,
                grams.len() == i,
                forall|k: int|
                    0 <= k < i ==> (#[trigger] grams@[k])@ == literal@.subrange(
                        k,
                        k + TRIGRAM_BYTES,
                    ),
            decreases n - i,
        {
            let gram: &[u8] = vstd::slice::slice_subrange(literal, i, i + TRIGRAM_BYTES);
            grams.push(slice_to_vec(gram));
            i = i + 1;
        }
        assert(grams@.map_values(|gram: Vec<u8>| gram@) =~= trigrams_of(literal@));
        grams
    }
}

/// What a literal asks for: all of its grams.
pub open spec fn literal_tree(
    grams: spec_fn(Seq<u8>) -> Seq<Seq<u8>>,
    literal: Seq<u8>,
) -> QueryTree {
    if grams(literal).len() == 0 {
        QueryTree::All
    } else {
        QueryTree::And(grams(literal).map_values(|gram: Seq<u8>| QueryTree::Gram(gram)))
    }
}

pub open spec fn literal_trees(
    grams: spec_fn(Seq<u8>) -> Seq<Seq<u8>>,
    literals: Seq<Seq<u8>>,
) -> Seq<QueryTree> {
    literals.map_values(|literal: Seq<u8>| literal_tree(grams, literal))
}

pub open spec fn has_all(list: Seq<QueryTree>) -> bool {
    exists|k: int| 0 <= k < list.len() && (#[trigger] list[k]) is All
}

/// What the literals at one end of a node's matches ask for: one of them, unless there is no list
/// of them or one of them asks for nothing.
pub open spec fn side_trees(
    grams: spec_fn(Seq<u8>) -> Seq<Seq<u8>>,
    literals: Option<Seq<Seq<u8>>>,
) -> Seq<QueryTree> {
    match literals {
        None => Seq::empty(),
        Some(list) => if list.len() == 0 || has_all(literal_trees(grams, list)) {
            Seq::empty()
        } else {
            seq![QueryTree::Or(literal_trees(grams, list))]
        },
    }
}

/// What a node's children ask for.
pub open spec fn inner_trees(shape: Shape, children: Seq<QueryTree>) -> Seq<QueryTree> {
    match shape {
        Shape::Concat => children,
        Shape::Alternation => if has_all(children) {
            Seq::empty()
        } else {
            seq![QueryTree::Or(children)]
        },
        Shape::Capture => children,
        Shape::Repetition { min } => if min >= 1 {
            children
        } else {
            Seq::empty()
        },
        Shape::Leaf => Seq::empty(),
    }
}

/// The first `n` of `parts`, each once, without those that ask for nothing.
pub open spec fn unique(parts: Seq<QueryTree>, n: int) -> Seq<QueryTree>
    decreases n,
{
    if n <= 0 {
        Seq::empty()
    } else {
        let kept = unique(parts, n - 1);
        if parts[n - 1] is All || kept.contains(parts[n - 1]) {
            kept
        } else {
            kept.push(parts[n - 1])
        }
    }
}

/// All of `parts` at once.
pub open spec fn joined_tree(parts: Seq<QueryTree>) -> QueryTree {
    let kept = unique(parts, parts.len() as int);
    if kept.len() == 0 {
        QueryTree::All
    } else if kept.len() == 1 {
        kept[0]
    } else {
        QueryTree::And(kept)
    }
}

pub open spec fn places_of(nodes: Seq<NodeView>) -> Seq<PatternShape> {
    nodes.map_values(|node: NodeView| node.place)
}

/// What the matches of node `i` must contain: a literal of each end, and what its children must.
pub open spec fn node_tree(
    grams: spec_fn(Seq<u8>) -> Seq<Seq<u8>>,
    nodes: Seq<NodeView>,
    i: int,
) -> QueryTree
    decreases nodes.len() - i, 0nat,
{
    if 0 <= i < nodes.len() && i < first_child(places_of(nodes), i) && first_child(
        places_of(nodes),
        i,
    ) + nodes[i].place.children <= nodes.len() {
        let start = first_child(places_of(nodes), i);
        joined_tree(
            side_trees(grams, nodes[i].prefixes) + side_trees(grams, nodes[i].suffixes)
                + inner_trees(
                nodes[i].place.shape,
                child_trees(grams, nodes, start, nodes[i].place.children as nat),
            ),
        )
    } else {
        QueryTree::All
    }
}

/// What the matches of the `n` nodes from `start` on must contain.
pub open spec fn child_trees(
    grams: spec_fn(Seq<u8>) -> Seq<Seq<u8>>,
    nodes: Seq<NodeView>,
    start: int,
    n: nat,
) -> Seq<QueryTree>
    decreases nodes.len() - start, n + 1,
{
    if n == 0 || start < 0 || start + n > nodes.len() {
        Seq::empty()
    } else {
        child_trees(grams, nodes, start, (n - 1) as nat).push(
            node_tree(grams, nodes, start + n - 1),
        )
    }
}

pub open spec fn gram_source<G: Grams>(grams: G) -> spec_fn(Seq<u8>) -> Seq<Seq<u8>> {
    |literal: Seq<u8>| grams.grams_of(literal)
}

proof fn lemma_first_child_ascends(places: Seq<PatternShape>, i: int, j: int)
    requires
        0 <= i <= j,
    ensures
        first_child(places, i) <= first_child(places, j),
    decreases j,
{
    if i < j {
        lemma_first_child_ascends(places, i, j - 1);
    }
}

proof fn lemma_child_trees(
    grams: spec_fn(Seq<u8>) -> Seq<Seq<u8>>,
    nodes: Seq<NodeView>,
    start: int,
    n: nat,
)
    requires
        0 <= start,
        start + n <= nodes.len(),
    ensures
        child_trees(grams, nodes, start, n).len() == n,
        forall|k: int|
            0 <= k < n ==> #[trigger] child_trees(grams, nodes, start, n)[k] == node_tree(
                grams,
                nodes,
                start + k,
            ),
    decreases n,
{
    if n > 0 {
        lemma_child_trees(grams, nodes, start, (n - 1) as nat);
    }
}

/// Grams that were found beforehand, those of each literal in its place.
#[derive(Debug)]
pub struct GivenGrams {
    pub literals: Vec<Vec<u8>>,
    pub grams: Vec<Vec<Vec<u8>>>,
}

/// The grams given for a literal from place `k` on; none where it was not asked about.
pub open spec fn given_from(given: GivenGrams, literal: Seq<u8>, k: int) -> Seq<Seq<u8>>
    decreases given.literals@.len() - k,
{
    if k >= given.literals@.len() || k >= given.grams@.len() {
        Seq::empty()
    } else if given.literals@[k]@ == literal {
        given.grams@[k]@.map_values(|gram: Vec<u8>| gram@)
    } else {
        given_from(given, literal, k + 1)
    }
}

impl Grams for GivenGrams {
    open spec fn grams_of(&self, literal: Seq<u8>) -> Seq<Seq<u8>> {
        given_from(*self, literal, 0)
    }

    fn grams(&self, literal: &[u8]) -> (grams: Vec<Vec<u8>>) {
        let mut k: usize = 0;
        while k < self.literals.len() && k < self.grams.len()
            invariant
                k <= self.literals.len(),
                k <= self.grams.len(),
                given_from(*self, literal@, 0) == given_from(*self, literal@, k as int),
            decreases self.literals.len() - k,
        {
            if bytes_eq(self.literals[k].as_slice(), literal) {
                return copy_list(&self.grams[k]);
            }
            k = k + 1;
        }
        let none: Vec<Vec<u8>> = Vec::new();
        assert(none@.map_values(|gram: Vec<u8>| gram@) =~= Seq::<Seq<u8>>::empty());
        none
    }
}

fn copy_list(list: &Vec<Vec<u8>>) -> (copies: Vec<Vec<u8>>)
    ensures
        copies@.map_values(|literal: Vec<u8>| literal@) == list@.map_values(
            |literal: Vec<u8>| literal@,
        ),
{
    let mut copies: Vec<Vec<u8>> = Vec::new();
    let mut i: usize = 0;
    while i < list.len()
        invariant
            i <= list.len(),
            copies.len() == i,
            forall|k: int| 0 <= k < i ==> (#[trigger] copies@[k])@ == list@[k]@,
        decreases list.len() - i,
    {
        copies.push(slice_to_vec(list[i].as_slice()));
        i = i + 1;
    }
    assert(copies@.map_values(|literal: Vec<u8>| literal@) =~= list@.map_values(
        |literal: Vec<u8>| literal@,
    ));
    copies
}

/// The query of a literal's grams.
pub fn lit_query<G: Grams>(literal: &[u8], grams: &G) -> (query: Query)
    ensures
        query.tree() == literal_tree(gram_source(*grams), literal@),
{
    let list: Vec<Vec<u8>> = grams.grams(literal);
    let ghost views = grams.grams_of(literal@);
    assert(list@.map_values(|gram: Vec<u8>| gram@) == views);
    assert(list@.map_values(|gram: Vec<u8>| gram@).len() == list@.len());
    if list.len() == 0 {
        return Query::All;
    }
    let mut subs: Vec<Query> = Vec::new();
    let mut i: usize = 0;
    while i < list.len()
        invariant
            i <= list.len(),
            subs.len() == i,
            list@.map_values(|gram: Vec<u8>| gram@) == views,
            forall|k: int| 0 <= k < i ==> (#[trigger] subs@[k]).tree() == QueryTree::Gram(views[k]),
        decreases list.len() - i,
    {
        assert(list@.map_values(|gram: Vec<u8>| gram@)[i as int] == list@[i as int]@);
        subs.push(Query::Gram(slice_to_vec(list[i].as_slice())));
        i = i + 1;
    }
    assert(crate::query::trees(subs@) =~= views.map_values(
        |gram: Seq<u8>| QueryTree::Gram(gram),
    ));
    Query::And(subs)
}

/// The query of the literals at one end of a node's matches, if they ask for anything.
pub fn side_query<G: Grams>(literals: &Option<Vec<Vec<u8>>>, grams: &G) -> (query: Option<Query>)
    ensures
        side_trees(gram_source(*grams), literal_views(*literals)) == match query {
            Some(query) => seq![query.tree()],
            None => Seq::empty(),
        },
        query is Some <==> narrows(gram_source(*grams), literal_views(*literals)),
{
    let ghost source = gram_source(*grams);
    proof {
        lemma_sides_narrow(source, literal_views(*literals));
    }
    match literals {
        None => None,
        Some(list) => {
            let ghost views = list@.map_values(|literal: Vec<u8>| literal@);
            let ghost wanted = literal_trees(source, views);
            let n: usize = list.len();
            if n == 0 {
                return None;
            }
            let mut subs: Vec<Query> = Vec::new();
            let mut i: usize = 0;
            while i < n
                invariant
                    i <= n,
                    n == list.len(),
                    n > 0,
                    subs.len() == i,
                    source == gram_source(*grams),
                    views == list@.map_values(|literal: Vec<u8>| literal@),
                    wanted == literal_trees(source, views),
                    *literals == Some(*list),
                    forall|k: int|
                        0 <= k < i ==> (#[trigger] subs@[k]).tree() == wanted[k] && !(
                        wanted[k] is All),
                decreases n - i,
            {
                assert(views[i as int] == list@[i as int]@);
                let query = lit_query(list[i].as_slice(), grams);
                assert(wanted[i as int] == query.tree());
                if let Query::All = query {
                    assert(has_all(wanted)) by {
                        assert(wanted[i as int] is All);
                    }
                    return None;
                }
                subs.push(query);
                i = i + 1;
            }
            assert(crate::query::trees(subs@) =~= wanted);
            assert(!has_all(wanted)) by {
                assert forall|k: int| 0 <= k < wanted.len() implies !((#[trigger] wanted[k]) is All) by {
                    assert(subs@[k].tree() == wanted[k]);
                }
            }
            Some(Query::Or(subs))
        },
    }
}

fn is_all(query: &Query) -> (all: bool)
    ensures
        all == (query.tree() is All),
{
    match query {
        Query::All => true,
        _ => false,
    }
}

/// Whether one of `list` asks for nothing.
fn any_all(list: &[Query]) -> (any: bool)
    ensures
        any == has_all(crate::query::trees(list@)),
{
    let ghost all = crate::query::trees(list@);
    let mut i: usize = 0;
    while i < list.len()
        invariant
            i <= list.len(),
            all == crate::query::trees(list@),
            forall|k: int| 0 <= k < i ==> !((#[trigger] all[k]) is All),
        decreases list.len() - i,
    {
        assert(all[i as int] == list@[i as int].tree());
        if is_all(&list[i]) {
            return true;
        }
        i = i + 1;
    }
    false
}

/// All of `parts` at once: each once, without those that ask for nothing.
pub fn join_parts(parts: Vec<Query>) -> (query: Query)
    ensures
        query.tree() == joined_tree(crate::query::trees(parts@)),
{
    let ghost all = crate::query::trees(parts@);
    let mut kept: Vec<Query> = Vec::new();
    let mut i: usize = 0;
    while i < parts.len()
        invariant
            i <= parts.len(),
            all == crate::query::trees(parts@),
            crate::query::trees(kept@) == unique(all, i as int),
        decreases parts.len() - i,
    {
        let ghost before = crate::query::trees(kept@);
        assert(all[i as int] == parts@[i as int].tree());
        let mut found = is_all(&parts[i]);
        let mut k: usize = 0;
        while k < kept.len() && !found
            invariant
                i < parts.len(),
                k <= kept.len(),
                all == crate::query::trees(parts@),
                all[i as int] == parts@[i as int].tree(),
                before == crate::query::trees(kept@),
                found ==> (all[i as int] is All || before.contains(all[i as int])),
                !found ==> !(all[i as int] is All),
                !found ==> forall|j: int| 0 <= j < k ==> (#[trigger] before[j]) != all[i as int],
            decreases kept.len() - k,
        {
            assert(before[k as int] == kept@[k as int].tree());
            if kept[k].same(&parts[i]) {
                found = true;
            }
            k = k + 1;
        }
        if !found {
            kept.push(parts[i].clone());
            assert(crate::query::trees(kept@) =~= before.push(all[i as int]));
            assert(!before.contains(all[i as int]));
        }
        i = i + 1;
    }
    assert(crate::query::trees(kept@).len() == kept@.len());
    if kept.len() == 0 {
        return Query::All;
    }
    if kept.len() == 1 {
        assert(crate::query::trees(kept@)[0] == kept@[0].tree());
        return kept[0].clone();
    }
    Query::And(kept)
}

/// What the matches of one node must contain, from its literals and its children's queries.
pub fn node_query<G: Grams>(node: &PatternNode, children: Vec<Query>, grams: &G) -> (query: Query)
    ensures
        query.tree() == joined_tree(
            side_trees(gram_source(*grams), node@.prefixes) + side_trees(
                gram_source(*grams),
                node@.suffixes,
            ) + inner_trees(node@.place.shape, crate::query::trees(children@)),
        ),
{
    let ghost source = gram_source(*grams);
    let ghost inner = inner_trees(node@.place.shape, crate::query::trees(children@));
    let ghost before = side_trees(source, node@.prefixes);
    let ghost after = side_trees(source, node@.suffixes);
    let mut parts: Vec<Query> = Vec::new();
    if let Some(query) = side_query(&node.prefixes, grams) {
        parts.push(query);
    }
    assert(crate::query::trees(parts@) =~= before);
    let ghost held = parts@;
    if let Some(query) = side_query(&node.suffixes, grams) {
        parts.push(query);
        assert(crate::query::trees(parts@) =~= before + after) by {
            assert forall|k: int| 0 <= k < held.len() implies parts@[k].tree() == before[k] by {
                assert(crate::query::trees(held)[k] == held[k].tree());
            }
        }
    }
    assert(crate::query::trees(parts@) =~= before + after);
    let ghost held = parts@;
    let take: bool = match node.place.shape {
        Shape::Concat => true,
        Shape::Capture => true,
        Shape::Repetition { min } => min >= 1,
        _ => false,
    };
    if take {
        let n: usize = children.len();
        let mut i: usize = 0;
        while i < n
            invariant
                n == children.len(),
                i <= n,
                inner == crate::query::trees(children@),
                crate::query::trees(held) == before + after,
                crate::query::trees(parts@) == (before + after) + inner.take(i as int),
            decreases n - i,
        {
            let ghost old_parts = parts@;
            assert(inner[i as int] == children@[i as int].tree());
            parts.push(children[i].clone());
            assert(crate::query::trees(parts@) =~= (before + after) + inner.take(i + 1)) by {
                let grown = crate::query::trees(old_parts).push(inner[i as int]);
                assert(crate::query::trees(parts@) =~= grown);
            }
            i = i + 1;
        }
        assert(inner.take(n as int) =~= inner);
    } else if let Shape::Alternation = node.place.shape {
        if !any_all(children.as_slice()) {
            let ghost old_parts = parts@;
            parts.push(Query::Or(children));
            assert(crate::query::trees(parts@) =~= (before + after) + inner) by {
                let grown = crate::query::trees(old_parts).push(inner[0]);
                assert(crate::query::trees(parts@) =~= grown);
            }
        } else {
            assert(crate::query::trees(parts@) =~= (before + after) + inner);
        }
    } else {
        assert(crate::query::trees(parts@) =~= (before + after) + inner);
    }
    join_parts(parts)
}

/// Where the children of each node start.
fn child_starts(nodes: &[PatternNode]) -> (starts: Vec<usize>)
    requires
        breadth_first(places_of(node_views(nodes@))),
    ensures
        starts.len() == nodes.len(),
        forall|k: int|
            0 <= k < nodes.len() ==> #[trigger] starts@[k] == first_child(
                places_of(node_views(nodes@)),
                k,
            ),
{
    let ghost places = places_of(node_views(nodes@));
    let mut starts: Vec<usize> = Vec::new();
    let mut next: usize = 1;
    let mut i: usize = 0;
    while i < nodes.len()
        invariant
            i <= nodes.len(),
            places == places_of(node_views(nodes@)),
            places.len() == nodes.len(),
            breadth_first(places),
            starts.len() == i,
            next == first_child(places, i as int),
            forall|k: int| 0 <= k < i ==> #[trigger] starts@[k] == first_child(places, k),
        decreases nodes.len() - i,
    {
        starts.push(next);
        proof {
            assert(places[i as int] == nodes@[i as int].place);
            lemma_first_child_ascends(places, i + 1, places.len() as int);
        }
        next = next + nodes[i].place.children;
        i = i + 1;
    }
    starts
}

/// What every match of the pattern with these nodes must contain.
pub fn hir_query<G: Grams>(nodes: &[PatternNode], grams: &G) -> (query: Query)
    requires
        breadth_first(places_of(node_views(nodes@))),
    ensures
        query.tree() == node_tree(gram_source(*grams), node_views(nodes@), 0),
        forall|has: spec_fn(Seq<u8>) -> bool| #[trigger]
            crate::query::holds(query, has) ==> side_there(
                gram_source(*grams),
                nodes@[0]@.prefixes,
                has,
            ) && side_there(gram_source(*grams), nodes@[0]@.suffixes, has),
{
    let ghost source = gram_source(*grams);
    let ghost views = node_views(nodes@);
    let ghost places = places_of(views);
    let n: usize = nodes.len();
    let starts: Vec<usize> = child_starts(nodes);
    let mut built: Vec<Query> = Vec::new();
    let mut i: usize = n;
    while i > 0
        invariant
            i <= n,
            n == nodes.len() == starts.len(),
            source == gram_source(*grams),
            views == node_views(nodes@),
            places == places_of(views),
            breadth_first(places),
            built.len() == n - i,
            forall|k: int| 0 <= k < n ==> #[trigger] starts@[k] == first_child(places, k),
            forall|k: int|
                0 <= k < n - i ==> (#[trigger] built@[k]).tree() == node_tree(
                    source,
                    views,
                    n - 1 - k,
                ),
        decreases i,
    {
        i = i - 1;
        let start: usize = starts[i];
        let count: usize = nodes[i].place.children;
        proof {
            assert(places[i as int] == nodes@[i as int].place);
            assert(views[i as int] == nodes@[i as int]@);
            lemma_first_child_ascends(places, i + 1, n as int);
            assert(first_child(places, i as int) > i);
            lemma_child_trees(source, views, start as int, count as nat);
        }
        let mut children: Vec<Query> = Vec::new();
        let mut k: usize = 0;
        while k < count
            invariant
                k <= count,
                i < start,
                start + count <= n,
                built.len() == n - i - 1,
                children.len() == k,
                forall|j: int|
                    0 <= j < n - i - 1 ==> (#[trigger] built@[j]).tree() == node_tree(
                        source,
                        views,
                        n - 1 - j,
                    ),
                forall|j: int|
                    0 <= j < k ==> (#[trigger] children@[j]).tree() == node_tree(
                        source,
                        views,
                        start + j,
                    ),
            decreases count - k,
        {
            let at: usize = n - 1 - (start + k);
            children.push(built[at].clone());
            k = k + 1;
        }
        assert(crate::query::trees(children@) =~= child_trees(
            source,
            views,
            start as int,
            count as nat,
        ));
        let query = node_query(&nodes[i], children, grams);
        assert(query.tree() == node_tree(source, views, i as int));
        built.push(query);
    }
    let query = built[n - 1].clone();
    assert forall|has: spec_fn(Seq<u8>) -> bool| #[trigger]
        crate::query::holds(query, has) implies side_there(source, nodes@[0]@.prefixes, has)
        && side_there(source, nodes@[0]@.suffixes, has) by {
        assert(views[0] == nodes@[0]@);
        planned_queries_narrow(query, source, views, has);
    }
    query
}

/// The nodes that `places` and the two lists of literals make.
pub open spec fn nodes_from(
    places: Seq<PatternShape>,
    prefixes: Seq<Option<Seq<Seq<u8>>>>,
    suffixes: Seq<Option<Seq<Seq<u8>>>>,
) -> Seq<NodeView> {
    Seq::new(
        places.len(),
        |i: int|
            NodeView { place: places[i], prefixes: prefixes[i], suffixes: suffixes[i] },
    )
}

/// The nodes of a pattern.
pub open spec fn pattern_nodes(pattern: Seq<char>) -> Seq<NodeView> {
    nodes_from(
        pattern_places(pattern)->0,
        pattern_literals(pattern, false)->0,
        pattern_literals(pattern, true)->0,
    )
}

fn copy_literals(literals: &Option<Vec<Vec<u8>>>) -> (copy: Option<Vec<Vec<u8>>>)
    ensures
        literal_views(copy) == literal_views(*literals),
{
    match literals {
        None => None,
        Some(list) => Some(copy_list(list)),
    }
}

/// The literals of the first `n` nodes, one list after the other.
pub open spec fn literals_in_order(lists: Seq<Option<Seq<Seq<u8>>>>, n: int) -> Seq<Seq<u8>>
    decreases n,
{
    if n <= 0 {
        Seq::empty()
    } else {
        literals_in_order(lists, n - 1) + match lists[n - 1] {
            None => Seq::empty(),
            Some(list) => list,
        }
    }
}

/// Adds the literals of all nodes behind those there are.
fn append_literals(lists: &[Option<Vec<Vec<u8>>>], out: &mut Vec<Vec<u8>>)
    ensures
        final(out)@.map_values(|literal: Vec<u8>| literal@) == old(out)@.map_values(
            |literal: Vec<u8>| literal@,
        ) + literals_in_order(
            lists@.map_values(|literals: Option<Vec<Vec<u8>>>| literal_views(literals)),
            lists@.len() as int,
        ),
{
    let ghost before = out@.map_values(|literal: Vec<u8>| literal@);
    let ghost views = lists@.map_values(
        |literals: Option<Vec<Vec<u8>>>| literal_views(literals),
    );
    let mut i: usize = 0;
    assert(out@.map_values(|literal: Vec<u8>| literal@) =~= before + literals_in_order(views, 0));
    while i < lists.len()
        invariant
            i <= lists.len(),
            views == lists@.map_values(
                |literals: Option<Vec<Vec<u8>>>| literal_views(literals),
            ),
            out@.map_values(|literal: Vec<u8>| literal@) == before + literals_in_order(
                views,
                i as int,
            ),
        decreases lists.len() - i,
    {
        let ghost shown = out@.map_values(|literal: Vec<u8>| literal@);
        assert(views[i as int] == literal_views(lists@[i as int]));
        if let Some(list) = &lists[i] {
            let mut copies = copy_list(list);
            let ghost added = copies@.map_values(|literal: Vec<u8>| literal@);
            out.append(&mut copies);
            assert(out@.map_values(|literal: Vec<u8>| literal@) =~= shown + added);
        }
        assert(out@.map_values(|literal: Vec<u8>| literal@) =~= before + literals_in_order(
            views,
            i + 1,
        ));
        i = i + 1;
    }
}

/// The literals whose grams planning asks for: those of the prefixes of each node, and those of
/// the suffixes.
pub fn planned_literals(pattern: &str) -> (literals: Result<Vec<Vec<u8>>, IndexError>)
    ensures
        match literals {
            Ok(list) => pattern_places(pattern@) is Some && list@.map_values(
                |literal: Vec<u8>| literal@,
            ) == literals_in_order(
                pattern_literals(pattern@, false)->0,
                pattern_places(pattern@)->0.len() as int,
            ) + literals_in_order(
                pattern_literals(pattern@, true)->0,
                pattern_places(pattern@)->0.len() as int,
            ),
            Err(error) => pattern_places(pattern@) is None && error == IndexError::BadPattern,
        },
{
    let prefixes = match extract_literals(pattern, false) {
        Some(lists) => lists,
        None => {
            return Err(IndexError::BadPattern);
        },
    };
    let suffixes = match extract_literals(pattern, true) {
        Some(lists) => lists,
        None => {
            return Err(IndexError::BadPattern);
        },
    };
    let mut literals: Vec<Vec<u8>> = Vec::new();
    append_literals(prefixes.as_slice(), &mut literals);
    append_literals(suffixes.as_slice(), &mut literals);
    assert(literals@.map_values(|literal: Vec<u8>| literal@) =~= literals_in_order(
        pattern_literals(pattern@, false)->0,
        pattern_places(pattern@)->0.len() as int,
    ) + literals_in_order(
        pattern_literals(pattern@, true)->0,
        pattern_places(pattern@)->0.len() as int,
    ));
    Ok(literals)
}

/// Puts the places of nodes and the literals of their ends together.
pub fn join_nodes(
    places: &[PatternShape],
    prefixes: &[Option<Vec<Vec<u8>>>],
    suffixes: &[Option<Vec<Vec<u8>>>],
) -> (nodes: Vec<PatternNode>)
    requires
        places.len() == prefixes.len() == suffixes.len(),
    ensures
        node_views(nodes@) == nodes_from(
            places@,
            prefixes@.map_values(|literals: Option<Vec<Vec<u8>>>| literal_views(literals)),
            suffixes@.map_values(|literals: Option<Vec<Vec<u8>>>| literal_views(literals)),
        ),
{
    let mut nodes: Vec<PatternNode> = Vec::new();
    let mut i: usize = 0;
    while i < places.len()
        invariant
            i <= places.len(),
            places.len() == prefixes.len() == suffixes.len(),
            nodes.len() == i,
            forall|k: int|
                0 <= k < i ==> (#[trigger] nodes@[k])@ == (NodeView {
                    place: places@[k],
                    prefixes: literal_views(prefixes@[k]),
                    suffixes: literal_views(suffixes@[k]),
                }),
        decreases places.len() - i,
    {
        nodes.push(
            PatternNode {
                place: places[i],
                prefixes: copy_literals(&prefixes[i]),
                suffixes: copy_literals(&suffixes[i]),
            },
        );
        i = i + 1;
    }
    assert(node_views(nodes@) =~= nodes_from(
        places@,
        prefixes@.map_values(|literals: Option<Vec<Vec<u8>>>| literal_views(literals)),
        suffixes@.map_values(|literals: Option<Vec<Vec<u8>>>| literal_views(literals)),
    ));
    nodes
}

/// What every match of `pattern` must contain, or an error where it is no regular expression.
pub fn plan<G: Grams>(pattern: &str, grams: &G) -> (planned: Result<Query, IndexError>)
    ensures
        match planned {
            Ok(query) => {
                &&& pattern_places(pattern@) is Some
                &&& breadth_first(places_of(pattern_nodes(pattern@)))
                &&& query.tree() == node_tree(gram_source(*grams), pattern_nodes(pattern@), 0)
            },
            Err(error) => pattern_places(pattern@) is None && error == IndexError::BadPattern,
        },
{
    let places = match parse_places(pattern) {
        Some(places) => places,
        None => {
            return Err(IndexError::BadPattern);
        },
    };
    let prefixes = match extract_literals(pattern, false) {
        Some(lists) => lists,
        None => {
            return Err(IndexError::BadPattern);
        },
    };
    let suffixes = match extract_literals(pattern, true) {
        Some(lists) => lists,
        None => {
            return Err(IndexError::BadPattern);
        },
    };
    let nodes = join_nodes(places.as_slice(), prefixes.as_slice(), suffixes.as_slice());
    assert(node_views(nodes@) =~= pattern_nodes(pattern@));
    assert(places_of(node_views(nodes@)) =~= places@);
    Ok(hir_query(nodes.as_slice(), grams))
}

/// Both give the same grams for each of a node's literals.
pub open spec fn agree_on(
    a: spec_fn(Seq<u8>) -> Seq<Seq<u8>>,
    b: spec_fn(Seq<u8>) -> Seq<Seq<u8>>,
    literals: Option<Seq<Seq<u8>>>,
) -> bool {
    literals is Some ==> forall|k: int|
        0 <= k < literals->0.len() ==> a(#[trigger] literals->0[k]) == b(literals->0[k])
}

proof fn lemma_sides_agree(
    a: spec_fn(Seq<u8>) -> Seq<Seq<u8>>,
    b: spec_fn(Seq<u8>) -> Seq<Seq<u8>>,
    literals: Option<Seq<Seq<u8>>>,
)
    requires
        agree_on(a, b, literals),
    ensures
        side_trees(a, literals) == side_trees(b, literals),
{
    if let Some(list) = literals {
        assert forall|k: int| 0 <= k < list.len() implies literal_tree(a, #[trigger] list[k])
            == literal_tree(b, list[k]) by {
            assert(a(list[k]) == b(list[k]));
        }
        assert(literal_trees(a, list) =~= literal_trees(b, list));
    }
}

/// A plan depends on the grams of the pattern's literals alone: it is the same by grams found
/// beforehand as by any that agree with them there.
pub proof fn plans_follow_their_literals(
    a: spec_fn(Seq<u8>) -> Seq<Seq<u8>>,
    b: spec_fn(Seq<u8>) -> Seq<Seq<u8>>,
    nodes: Seq<NodeView>,
    i: int,
)
    requires
        forall|k: int|
            0 <= k < nodes.len() ==> agree_on(a, b, (#[trigger] nodes[k]).prefixes) && agree_on(
                a,
                b,
                nodes[k].suffixes,
            ),
    ensures
        node_tree(a, nodes, i) == node_tree(b, nodes, i),
    decreases nodes.len() - i, 0nat,
{
    let start = first_child(places_of(nodes), i);
    if 0 <= i < nodes.len() && i < start && start + nodes[i].place.children <= nodes.len() {
        assert(agree_on(a, b, nodes[i].prefixes));
        lemma_sides_agree(a, b, nodes[i].prefixes);
        lemma_sides_agree(a, b, nodes[i].suffixes);
        lemma_children_agree(a, b, nodes, start, nodes[i].place.children as nat);
    }
}

proof fn lemma_children_agree(
    a: spec_fn(Seq<u8>) -> Seq<Seq<u8>>,
    b: spec_fn(Seq<u8>) -> Seq<Seq<u8>>,
    nodes: Seq<NodeView>,
    start: int,
    n: nat,
)
    requires
        forall|k: int|
            0 <= k < nodes.len() ==> agree_on(a, b, (#[trigger] nodes[k]).prefixes) && agree_on(
                a,
                b,
                nodes[k].suffixes,
            ),
    ensures
        child_trees(a, nodes, start, n) == child_trees(b, nodes, start, n),
    decreases nodes.len() - start, n + 1,
{
    if n > 0 && start >= 0 && start + n <= nodes.len() {
        lemma_children_agree(a, b, nodes, start, (n - 1) as nat);
        plans_follow_their_literals(a, b, nodes, start + n - 1);
    }
}

/// `part` stands somewhere in `text`.
pub open spec fn is_part(part: Seq<u8>, text: Seq<u8>) -> bool {
    exists|at: int| part_at(part, text, at)
}

pub open spec fn part_at(part: Seq<u8>, text: Seq<u8>, at: int) -> bool {
    0 <= at && at + part.len() <= text.len() && text.subrange(at, at + part.len()) == part
}

/// A text of node `i` somewhere in `text`.
pub open spec fn found_in(
    matched: spec_fn(int, Seq<u8>) -> bool,
    i: int,
    text: Seq<u8>,
) -> bool {
    exists|part: Seq<u8>| is_part(part, text) && #[trigger] matched(i, part)
}

/// One of `literals` somewhere in `text`.
pub open spec fn literal_in(literals: Seq<Seq<u8>>, text: Seq<u8>) -> bool {
    exists|k: int| 0 <= k < literals.len() && is_part(#[trigger] literals[k], text)
}

/// `matched` says which texts the nodes match, as far as planning relies on it: a match holds a
/// literal of each list, and what the node's children match stands in it.
pub open spec fn matches_nodes(
    nodes: Seq<NodeView>,
    matched: spec_fn(int, Seq<u8>) -> bool,
) -> bool {
    forall|i: int, text: Seq<u8>|
        0 <= i < nodes.len() && #[trigger] matched(i, text) ==> node_matched(
            nodes,
            matched,
            i,
            text,
        )
}

pub open spec fn node_matched(
    nodes: Seq<NodeView>,
    matched: spec_fn(int, Seq<u8>) -> bool,
    i: int,
    text: Seq<u8>,
) -> bool {
    let start = first_child(places_of(nodes), i);
    let count = nodes[i].place.children as int;
    &&& nodes[i].prefixes is Some && nodes[i].prefixes->0.len() > 0 ==> literal_in(
        nodes[i].prefixes->0,
        text,
    )
    &&& nodes[i].suffixes is Some && nodes[i].suffixes->0.len() > 0 ==> literal_in(
        nodes[i].suffixes->0,
        text,
    )
    &&& match nodes[i].place.shape {
        Shape::Alternation => exists|c: int|
            start <= c < start + count && #[trigger] found_in(matched, c, text),
        Shape::Repetition { min } => min >= 1 ==> all_found(matched, start, count, text),
        Shape::Leaf => true,
        _ => all_found(matched, start, count, text),
    }
}

pub open spec fn all_found(
    matched: spec_fn(int, Seq<u8>) -> bool,
    start: int,
    count: int,
    text: Seq<u8>,
) -> bool {
    forall|c: int| start <= c < start + count ==> #[trigger] found_in(matched, c, text)
}

/// `has` accepts every gram of every literal that stands in `document`.
pub open spec fn covers(
    grams: spec_fn(Seq<u8>) -> Seq<Seq<u8>>,
    document: Seq<u8>,
    has: spec_fn(Seq<u8>) -> bool,
) -> bool {
    forall|literal: Seq<u8>, k: int|
        is_part(literal, document) && 0 <= k < grams(literal).len() ==> has(
            #[trigger] grams(literal)[k],
        )
}

proof fn lemma_part_of_part(a: Seq<u8>, b: Seq<u8>, c: Seq<u8>)
    requires
        is_part(a, b),
        is_part(b, c),
    ensures
        is_part(a, c),
{
    let i = choose|at: int| part_at(a, b, at);
    let j = choose|at: int| part_at(b, c, at);
    assert(c.subrange(i + j, i + j + a.len()) =~= a) by {
        assert forall|k: int| 0 <= k < a.len() implies c.subrange(i + j, i + j + a.len())[k]
            == a[k] by {
            assert(b.subrange(i, i + a.len())[k] == a[k]);
            assert(c.subrange(j, j + b.len())[i + k] == b[i + k]);
        }
    }
    assert(part_at(a, c, i + j));
}

proof fn lemma_literal_holds(
    grams: spec_fn(Seq<u8>) -> Seq<Seq<u8>>,
    literal: Seq<u8>,
    document: Seq<u8>,
    has: spec_fn(Seq<u8>) -> bool,
)
    requires
        covers(grams, document, has),
        is_part(literal, document),
    ensures
        crate::query::tree_holds(literal_tree(grams, literal), has),
{
    let list = grams(literal);
    if list.len() > 0 {
        let subs = list.map_values(|gram: Seq<u8>| QueryTree::Gram(gram));
        assert forall|k: int| 0 <= k < subs.len() implies crate::query::tree_holds(
            #[trigger] subs[k],
            has,
        ) by {
            assert(has(grams(literal)[k]));
            assert(subs[k] == QueryTree::Gram(list[k]));
        }
        assert(crate::query::all_trees_hold(subs, has));
    }
}

proof fn lemma_side_holds(
    grams: spec_fn(Seq<u8>) -> Seq<Seq<u8>>,
    literals: Option<Seq<Seq<u8>>>,
    text: Seq<u8>,
    document: Seq<u8>,
    has: spec_fn(Seq<u8>) -> bool,
)
    requires
        covers(grams, document, has),
        is_part(text, document),
        literals is Some && literals->0.len() > 0 ==> literal_in(literals->0, text),
    ensures
        crate::query::all_trees_hold(side_trees(grams, literals), has),
{
    if side_trees(grams, literals).len() > 0 {
        let list = literals->0;
        let subs = literal_trees(grams, list);
        let k = choose|k: int| 0 <= k < list.len() && is_part(#[trigger] list[k], text);
        lemma_part_of_part(list[k], text, document);
        lemma_literal_holds(grams, list[k], document, has);
        assert(subs[k] == literal_tree(grams, list[k]));
        assert(crate::query::any_tree_holds(subs, has));
        assert(crate::query::tree_holds(QueryTree::Or(subs), has));
    }
}

proof fn lemma_joined_holds(parts: Seq<QueryTree>, has: spec_fn(Seq<u8>) -> bool)
    requires
        crate::query::all_trees_hold(parts, has),
    ensures
        crate::query::tree_holds(joined_tree(parts), has),
{
    lemma_unique_from(parts, parts.len() as int, has);
    let kept = unique(parts, parts.len() as int);
    assert(crate::query::all_trees_hold(kept, has));
    if kept.len() == 1 {
        assert(crate::query::tree_holds(kept[0], has));
    }
}

proof fn lemma_unique_from(parts: Seq<QueryTree>, n: int, has: spec_fn(Seq<u8>) -> bool)
    requires
        0 <= n <= parts.len(),
        crate::query::all_trees_hold(parts, has),
    ensures
        crate::query::all_trees_hold(unique(parts, n), has),
    decreases n,
{
    if n > 0 {
        lemma_unique_from(parts, n - 1, has);
        assert(crate::query::tree_holds(parts[n - 1], has));
    }
}

proof fn lemma_node_holds(
    grams: spec_fn(Seq<u8>) -> Seq<Seq<u8>>,
    nodes: Seq<NodeView>,
    matched: spec_fn(int, Seq<u8>) -> bool,
    i: int,
    text: Seq<u8>,
    document: Seq<u8>,
    has: spec_fn(Seq<u8>) -> bool,
)
    requires
        breadth_first(places_of(nodes)),
        matches_nodes(nodes, matched),
        covers(grams, document, has),
        0 <= i < nodes.len(),
        matched(i, text),
        is_part(text, document),
    ensures
        crate::query::tree_holds(node_tree(grams, nodes, i), has),
    decreases nodes.len() - i,
{
    let places = places_of(nodes);
    let start = first_child(places, i);
    let count = nodes[i].place.children as nat;
    assert(places[i] == nodes[i].place);
    assert(first_child(places, i) > i);
    assert(first_child(places, i + 1) == start + count);
    lemma_first_child_ascends(places, i + 1, nodes.len() as int);
    assert(node_matched(nodes, matched, i, text));
    let kids = child_trees(grams, nodes, start, count);
    lemma_child_trees(grams, nodes, start, count);
    lemma_side_holds(grams, nodes[i].prefixes, text, document, has);
    lemma_side_holds(grams, nodes[i].suffixes, text, document, has);
    assert forall|c: int|
        start <= c < start + count && #[trigger] found_in(
            matched,
            c,
            text,
        ) implies crate::query::tree_holds(kids[c - start], has) by {
        let part = choose|part: Seq<u8>| is_part(part, text) && #[trigger] matched(c, part);
        lemma_part_of_part(part, text, document);
        lemma_node_holds(grams, nodes, matched, c, part, document, has);
        assert(kids[c - start] == node_tree(grams, nodes, c));
    }
    let inner = inner_trees(nodes[i].place.shape, kids);
    assert(crate::query::all_trees_hold(inner, has)) by {
        if nodes[i].place.shape is Alternation {
            if !has_all(kids) {
                let c = choose|c: int|
                    start <= c < start + count && #[trigger] found_in(matched, c, text);
                assert(crate::query::tree_holds(kids[c - start], has));
                assert(crate::query::any_tree_holds(kids, has));
                assert(crate::query::tree_holds(QueryTree::Or(kids), has));
            }
        } else if inner.len() > 0 {
            assert(all_found(matched, start, count as int, text));
            assert forall|k: int| 0 <= k < inner.len() implies crate::query::tree_holds(
                #[trigger] inner[k],
                has,
            ) by {
                assert(found_in(matched, start + k, text));
            }
        }
    }
    let parts = side_trees(grams, nodes[i].prefixes) + side_trees(grams, nodes[i].suffixes) + inner;
    let a = side_trees(grams, nodes[i].prefixes);
    let b = side_trees(grams, nodes[i].suffixes);
    assert forall|k: int| 0 <= k < parts.len() implies crate::query::tree_holds(
        #[trigger] parts[k],
        has,
    ) by {
        if k < a.len() {
            assert(parts[k] == a[k]);
        } else if k < a.len() + b.len() {
            assert(parts[k] == b[k - a.len()]);
        } else {
            assert(parts[k] == inner[k - a.len() - b.len()]);
        }
    }
    assert(crate::query::all_trees_hold(parts, has));
    lemma_joined_holds(parts, has);
}

/// All grams of a literal are there.
pub open spec fn literal_there(
    grams: spec_fn(Seq<u8>) -> Seq<Seq<u8>>,
    literal: Seq<u8>,
    has: spec_fn(Seq<u8>) -> bool,
) -> bool {
    forall|g: int| 0 <= g < grams(literal).len() ==> has(#[trigger] grams(literal)[g])
}

/// Where there is a list of literals, and each of them has grams, all grams of one of them are there.
pub open spec fn side_there(
    grams: spec_fn(Seq<u8>) -> Seq<Seq<u8>>,
    literals: Option<Seq<Seq<u8>>>,
    has: spec_fn(Seq<u8>) -> bool,
) -> bool {
    literals matches Some(list) ==> list.len() > 0 && (forall|k: int|
        0 <= k < list.len() ==> grams(#[trigger] list[k]).len() > 0) ==> exists|k: int|
        0 <= k < list.len() && literal_there(grams, #[trigger] list[k], has)
}

/// What a node's children ask for is there: what each of them asks for, or, of alternatives, what one
/// of them does. A repetition that may be left out asks for nothing.
pub open spec fn children_there(
    grams: spec_fn(Seq<u8>) -> Seq<Seq<u8>>,
    nodes: Seq<NodeView>,
    i: int,
    has: spec_fn(Seq<u8>) -> bool,
) -> bool {
    let start = first_child(places_of(nodes), i);
    let end = start + nodes[i].place.children;
    match nodes[i].place.shape {
        Shape::Concat | Shape::Capture => forall|c: int|
            start <= c < end ==> crate::query::tree_holds(
                #[trigger] node_tree(grams, nodes, c),
                has,
            ),
        Shape::Repetition { min } => min > 0 ==> forall|c: int|
            start <= c < end ==> crate::query::tree_holds(
                #[trigger] node_tree(grams, nodes, c),
                has,
            ),
        Shape::Alternation => exists|c: int|
            start <= c < end && crate::query::tree_holds(
                #[trigger] node_tree(grams, nodes, c),
                has,
            ),
        Shape::Leaf => true,
    }
}

proof fn lemma_literal_asks(
    grams: spec_fn(Seq<u8>) -> Seq<Seq<u8>>,
    literal: Seq<u8>,
    has: spec_fn(Seq<u8>) -> bool,
)
    ensures
        crate::query::tree_holds(literal_tree(grams, literal), has) <==> literal_there(
            grams,
            literal,
            has,
        ),
        literal_tree(grams, literal) is All <==> grams(literal).len() == 0,
{
    let list = grams(literal);
    let subs = list.map_values(|gram: Seq<u8>| QueryTree::Gram(gram));
    if list.len() > 0 {
        assert(literal_tree(grams, literal) == QueryTree::And(subs));
        if crate::query::all_trees_hold(subs, has) {
            assert forall|g: int| 0 <= g < grams(literal).len() implies has(
                #[trigger] grams(literal)[g],
            ) by {
                assert(crate::query::tree_holds(subs[g], has));
            }
        }
        if literal_there(grams, literal, has) {
            assert forall|g: int| 0 <= g < subs.len() implies crate::query::tree_holds(
                #[trigger] subs[g],
                has,
            ) by {
                assert(has(grams(literal)[g]));
            }
        }
    }
}

proof fn lemma_side_asks(
    grams: spec_fn(Seq<u8>) -> Seq<Seq<u8>>,
    literals: Option<Seq<Seq<u8>>>,
    has: spec_fn(Seq<u8>) -> bool,
)
    ensures
        crate::query::all_trees_hold(side_trees(grams, literals), has) <==> side_there(
            grams,
            literals,
            has,
        ),
{
    if let Some(list) = literals {
        let subs = literal_trees(grams, list);
        assert forall|k: int| 0 <= k < list.len() implies #[trigger] subs[k] == literal_tree(
            grams,
            list[k],
        ) && (subs[k] is All <==> grams(list[k]).len() == 0) && (crate::query::tree_holds(
            subs[k],
            has,
        ) <==> literal_there(grams, list[k], has)) by {
            lemma_literal_asks(grams, list[k], has);
        }
        let sides = side_trees(grams, literals);
        if list.len() > 0 && (forall|k: int|
            0 <= k < list.len() ==> grams(#[trigger] list[k]).len() > 0) {
            assert(!has_all(subs)) by {
                assert forall|k: int| 0 <= k < subs.len() implies !((#[trigger] subs[k]) is All) by {
                    assert(grams(list[k]).len() > 0);
                }
            }
            assert(sides == seq![QueryTree::Or(subs)]);
            assert(sides[0] == QueryTree::Or(subs));
            if crate::query::all_trees_hold(sides, has) {
                assert(crate::query::tree_holds(sides[0], has));
                assert(crate::query::any_tree_holds(subs, has));
                let k = choose|k: int|
                    0 <= k < subs.len() && crate::query::tree_holds(#[trigger] subs[k], has);
                assert(literal_there(grams, list[k], has));
            }
            if side_there(grams, literals, has) {
                let k = choose|k: int|
                    0 <= k < list.len() && literal_there(grams, #[trigger] list[k], has);
                assert(crate::query::tree_holds(subs[k], has));
                assert(crate::query::any_tree_holds(subs, has));
                assert(crate::query::tree_holds(QueryTree::Or(subs), has));
            }
        } else {
            if list.len() > 0 {
                let k = choose|k: int| 0 <= k < list.len() && grams(#[trigger] list[k]).len() == 0;
                assert(subs[k] is All);
                assert(has_all(subs));
            }
            assert(sides =~= Seq::empty());
        }
    }
}

proof fn lemma_unique_keeps(parts: Seq<QueryTree>, n: int, k: int)
    requires
        0 <= k < n <= parts.len(),
    ensures
        parts[k] is All || unique(parts, n).contains(parts[k]),
    decreases n,
{
    let kept = unique(parts, n - 1);
    if k < n - 1 {
        lemma_unique_keeps(parts, n - 1, k);
        if !(parts[k] is All) {
            let j = choose|j: int| 0 <= j < kept.len() && kept[j] == parts[k];
            assert(unique(parts, n)[j] == parts[k]);
        }
    } else if !(parts[k] is All) && !kept.contains(parts[k]) {
        assert(unique(parts, n)[kept.len() as int] == parts[k]);
    }
}

proof fn lemma_joined_asks(parts: Seq<QueryTree>, has: spec_fn(Seq<u8>) -> bool)
    ensures
        crate::query::tree_holds(joined_tree(parts), has) <==> crate::query::all_trees_hold(
            parts,
            has,
        ),
{
    if crate::query::all_trees_hold(parts, has) {
        lemma_joined_holds(parts, has);
    }
    if crate::query::tree_holds(joined_tree(parts), has) {
        let kept = unique(parts, parts.len() as int);
        assert forall|k: int| 0 <= k < parts.len() implies crate::query::tree_holds(
            #[trigger] parts[k],
            has,
        ) by {
            lemma_unique_keeps(parts, parts.len() as int, k);
            if !(parts[k] is All) {
                let j = choose|j: int| 0 <= j < kept.len() && kept[j] == parts[k];
                if kept.len() > 1 {
                    assert(crate::query::all_trees_hold(kept, has));
                    assert(crate::query::tree_holds(kept[j], has));
                }
            }
        }
    }
}

/// A plan asks for exactly what its nodes ask for: the query of a node holds of those sets of grams
/// that hold all grams of one of the literals at either end of its matches, wherever each of these
/// literals has grams, and what its children ask for.
pub proof fn plans_ask_for_what_nodes_ask_for(
    grams: spec_fn(Seq<u8>) -> Seq<Seq<u8>>,
    nodes: Seq<NodeView>,
    i: int,
    has: spec_fn(Seq<u8>) -> bool,
)
    requires
        breadth_first(places_of(nodes)),
        0 <= i < nodes.len(),
    ensures
        crate::query::tree_holds(node_tree(grams, nodes, i), has) <==> {
            &&& side_there(grams, nodes[i].prefixes, has)
            &&& side_there(grams, nodes[i].suffixes, has)
            &&& children_there(grams, nodes, i, has)
        },
{
    let places = places_of(nodes);
    let start = first_child(places, i);
    let count = nodes[i].place.children as nat;
    assert(places[i] == nodes[i].place);
    assert(first_child(places, i) > i);
    assert(first_child(places, i + 1) == start + count);
    lemma_first_child_ascends(places, i + 1, nodes.len() as int);
    let kids = child_trees(grams, nodes, start, count);
    lemma_child_trees(grams, nodes, start, count);
    assert forall|c: int| start <= c < start + count implies #[trigger] node_tree(grams, nodes, c)
        == kids[c - start] by {
        assert(kids[c - start] == node_tree(grams, nodes, start + (c - start)));
    }
    let a = side_trees(grams, nodes[i].prefixes);
    let b = side_trees(grams, nodes[i].suffixes);
    let inner = inner_trees(nodes[i].place.shape, kids);
    let parts = a + b + inner;
    lemma_side_asks(grams, nodes[i].prefixes, has);
    lemma_side_asks(grams, nodes[i].suffixes, has);
    lemma_joined_asks(parts, has);
    assert(crate::query::all_trees_hold(inner, has) <==> children_there(grams, nodes, i, has)) by {
        match nodes[i].place.shape {
            Shape::Alternation => {
                if has_all(kids) {
                    let k = choose|k: int| 0 <= k < kids.len() && (#[trigger] kids[k]) is All;
                    assert(node_tree(grams, nodes, start + k) == kids[k]);
                    assert(crate::query::tree_holds(node_tree(grams, nodes, start + k), has));
                } else {
                    assert(inner[0] == QueryTree::Or(kids));
                    if crate::query::all_trees_hold(inner, has) {
                        assert(crate::query::tree_holds(inner[0], has));
                        assert(crate::query::any_tree_holds(kids, has));
                        let k = choose|k: int|
                            0 <= k < kids.len() && crate::query::tree_holds(#[trigger] kids[k], has);
                        assert(crate::query::tree_holds(node_tree(grams, nodes, start + k), has));
                    }
                    if children_there(grams, nodes, i, has) {
                        let c = choose|c: int|
                            start <= c < start + count && crate::query::tree_holds(
                                #[trigger] node_tree(grams, nodes, c),
                                has,
                            );
                        assert(crate::query::tree_holds(kids[c - start], has));
                        assert(crate::query::any_tree_holds(kids, has));
                        assert(crate::query::tree_holds(QueryTree::Or(kids), has));
                    }
                }
            },
            _ => {
                if inner == kids {
                    if crate::query::all_trees_hold(kids, has) {
                        assert forall|c: int| start <= c < start + count
                            implies crate::query::tree_holds(
                            #[trigger] node_tree(grams, nodes, c),
                            has,
                        ) by {
                            assert(crate::query::tree_holds(kids[c - start], has));
                        }
                    }
                    if children_there(grams, nodes, i, has) {
                        assert forall|k: int| 0 <= k < inner.len()
                            implies crate::query::tree_holds(#[trigger] inner[k], has) by {
                            assert(node_tree(grams, nodes, start + k) == kids[k]);
                        }
                    }
                }
            },
        }
    }
    if crate::query::all_trees_hold(parts, has) {
        assert forall|k: int| 0 <= k < a.len() implies crate::query::tree_holds(
            #[trigger] a[k],
            has,
        ) by {
            assert(parts[k] == a[k]);
        }
        assert forall|k: int| 0 <= k < b.len() implies crate::query::tree_holds(
            #[trigger] b[k],
            has,
        ) by {
            assert(parts[a.len() + k] == b[k]);
        }
        assert forall|k: int| 0 <= k < inner.len() implies crate::query::tree_holds(
            #[trigger] inner[k],
            has,
        ) by {
            assert(parts[a.len() + b.len() + k] == inner[k]);
        }
    }
    if crate::query::all_trees_hold(a, has) && crate::query::all_trees_hold(b, has)
        && crate::query::all_trees_hold(inner, has) {
        assert forall|k: int| 0 <= k < parts.len() implies crate::query::tree_holds(
            #[trigger] parts[k],
            has,
        ) by {
            if k < a.len() {
                assert(parts[k] == a[k]);
            } else if k < a.len() + b.len() {
                assert(parts[k] == b[k - a.len()]);
            } else {
                assert(parts[k] == inner[k - a.len() - b.len()]);
            }
        }
    }
}

/// A planned query narrows: it holds only where all grams of one of the literals are there that a match
/// must start with, and likewise of those it must end with, wherever each of these has grams. So it
/// does not hold of a document without any grams.
pub proof fn planned_queries_narrow(
    query: Query,
    grams: spec_fn(Seq<u8>) -> Seq<Seq<u8>>,
    nodes: Seq<NodeView>,
    has: spec_fn(Seq<u8>) -> bool,
)
    requires
        breadth_first(places_of(nodes)),
        query.tree() == node_tree(grams, nodes, 0),
    ensures
        crate::query::holds(query, has) ==> side_there(grams, nodes[0].prefixes, has)
            && side_there(grams, nodes[0].suffixes, has),
        (forall|gram: Seq<u8>| !#[trigger] has(gram)) && (narrows(grams, nodes[0].prefixes) || narrows(
            grams,
            nodes[0].suffixes,
        )) ==> !crate::query::holds(query, has),
{
    crate::query::models_hold_alike(query, has);
    plans_ask_for_what_nodes_ask_for(grams, nodes, 0, has);
    if (forall|gram: Seq<u8>| !#[trigger] has(gram)) && crate::query::holds(query, has) {
        if narrows(grams, nodes[0].prefixes) {
            lemma_nothing_is_there(grams, nodes[0].prefixes, has);
        }
        if narrows(grams, nodes[0].suffixes) {
            lemma_nothing_is_there(grams, nodes[0].suffixes, has);
        }
    }
}

/// An end of a node's matches asks for something if and only if it narrows.
proof fn lemma_sides_narrow(
    grams: spec_fn(Seq<u8>) -> Seq<Seq<u8>>,
    literals: Option<Seq<Seq<u8>>>,
)
    ensures
        side_trees(grams, literals).len() > 0 <==> narrows(grams, literals),
{
    if let Some(list) = literals {
        let subs = literal_trees(grams, list);
        assert forall|k: int| 0 <= k < list.len() implies (#[trigger] subs[k] is All <==> grams(
            list[k],
        ).len() == 0) by {}
        if narrows(grams, literals) {
            assert forall|k: int| 0 <= k < subs.len() implies !((#[trigger] subs[k]) is All) by {
                assert(grams(list[k]).len() > 0);
            }
        } else if list.len() > 0 {
            let k = choose|k: int| 0 <= k < list.len() && grams(#[trigger] list[k]).len() == 0;
            assert(subs[k] is All);
        }
    }
}

/// There is a list of literals, and each of them has grams.
pub open spec fn narrows(
    grams: spec_fn(Seq<u8>) -> Seq<Seq<u8>>,
    literals: Option<Seq<Seq<u8>>>,
) -> bool {
    literals matches Some(list) && list.len() > 0 && forall|k: int|
        0 <= k < list.len() ==> grams(#[trigger] list[k]).len() > 0
}

proof fn lemma_nothing_is_there(
    grams: spec_fn(Seq<u8>) -> Seq<Seq<u8>>,
    literals: Option<Seq<Seq<u8>>>,
    has: spec_fn(Seq<u8>) -> bool,
)
    requires
        narrows(grams, literals),
        forall|gram: Seq<u8>| !#[trigger] has(gram),
    ensures
        !side_there(grams, literals, has),
{
    let list = literals->0;
    assert forall|k: int| 0 <= k < list.len() implies !literal_there(
        grams,
        #[trigger] list[k],
        has,
    ) by {
        let gram = grams(list[k])[0];
        assert(has(gram) == false);
    }
}

/// A planned query never loses a match: whatever text the pattern matches in a document, the
/// query holds of the document's grams. So the documents that a query selects are a superset of
/// those with a match.
pub proof fn planned_queries_keep_matches(
    query: Query,
    grams: spec_fn(Seq<u8>) -> Seq<Seq<u8>>,
    nodes: Seq<NodeView>,
    matched: spec_fn(int, Seq<u8>) -> bool,
    text: Seq<u8>,
    document: Seq<u8>,
    has: spec_fn(Seq<u8>) -> bool,
)
    requires
        breadth_first(places_of(nodes)),
        matches_nodes(nodes, matched),
        covers(grams, document, has),
        query.tree() == node_tree(grams, nodes, 0),
        matched(0, text),
        is_part(text, document),
    ensures
        crate::query::holds(query, has),
{
    lemma_node_holds(grams, nodes, matched, 0, text, document, has);
    crate::query::models_hold_alike(query, has);
}

/// The trigrams of a literal are exactly the three-byte stretches of it, one for each place where one
/// starts.
pub proof fn trigrams_are_all_stretches(literal: Seq<u8>, gram: Seq<u8>)
    ensures
        trigrams_of(literal).contains(gram) <==> gram.len() == 3 && exists|at: int|
            0 <= at && at + 3 <= literal.len() && #[trigger] literal.subrange(at, at + 3) == gram,
        trigrams_of(literal).len() == if literal.len() < 3 {
            0
        } else {
            literal.len() - 2
        },
{
    let all = trigrams_of(literal);
    if all.contains(gram) {
        let at = choose|at: int| 0 <= at < all.len() && all[at] == gram;
        assert(literal.subrange(at, at + 3) == gram);
    }
    if exists|at: int|
        0 <= at && at + 3 <= literal.len() && #[trigger] literal.subrange(at, at + 3) == gram {
        let at = choose|at: int|
            0 <= at && at + 3 <= literal.len() && #[trigger] literal.subrange(at, at + 3) == gram;
        assert(all[at] == gram);
    }
}

/// The trigrams of a document cover it: every trigram of a literal that stands in the document
/// stands in the document.
pub proof fn trigrams_cover_documents(document: Seq<u8>)
    ensures
        covers(
            |literal: Seq<u8>| trigrams_of(literal),
            document,
            |gram: Seq<u8>| is_part(gram, document),
        ),
{
    let grams = |literal: Seq<u8>| trigrams_of(literal);
    let has = |gram: Seq<u8>| is_part(gram, document);
    assert forall|literal: Seq<u8>, k: int|
        is_part(literal, document) && 0 <= k < grams(literal).len() implies has(
        #[trigger] grams(literal)[k],
    ) by {
        let gram = trigrams_of(literal)[k];
        assert(part_at(gram, literal, k));
        lemma_part_of_part(gram, literal, document);
    }
}

} // verus!
