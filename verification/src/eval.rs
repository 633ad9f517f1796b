//! Query evaluation over prefetched posting blocks: resolve every gram against the term
//! dictionary, prune, fetch each needed block once, then combine sorted id lists.

use crate::error::IndexError;
use crate::ids::{intersect, sort_dedup};
use crate::posting_block::posting_block_len;
use crate::query::{Query, Strategy};
use std::collections::BTreeMap;
use vstd::prelude::*;

verus! {

/// Keep at most this many (rarest) gram constraints per AND. Extra grams only narrow an already
/// small candidate set, and dropping them keeps the result a superset of the true matches.
pub const SPARSE_MAX_GRAMS_PER_AND: usize = 8;

pub const BLOCK_MAX_GRAMS_PER_AND: usize = 64;

/// The largest id count that a packed posting stores, and so the largest id space of a segment.
pub const MAX_POSTING_COUNT: u64 = 0xff_ffff;

pub const OFFSET_LIMIT: u64 = 0x100_0000_0000;

/// Pack a posting block's byte offset (40 bits) and id count (24 bits) into one value.
pub fn pack_posting(offset: u64, count: usize) -> (packed: Result<u64, IndexError>)
    ensures
        match packed {
            Ok(value) => offset < OFFSET_LIMIT && count <= MAX_POSTING_COUNT && value == offset
                + count * OFFSET_LIMIT,
            Err(e) => if offset >= OFFSET_LIMIT {
                e == (IndexError::PostingOffset { offset })
            } else {
                count > MAX_POSTING_COUNT && e == (IndexError::PostingCount { ids: count })
            },
        },
{
    if offset >= OFFSET_LIMIT {
        return Err(IndexError::PostingOffset { offset });
    }
    if count as u64 > MAX_POSTING_COUNT {
        return Err(IndexError::PostingCount { ids: count });
    }
    let wide: u64 = count as u64;
    assert(offset | (wide << 40) == offset + wide * 0x100_0000_0000) by (bit_vector)
        requires
            offset < 0x100_0000_0000,
            wide <= 0xff_ffff,
    ;
    Ok(offset | (wide << 40))
}

/// The offset and the count of a packed posting.
pub open spec fn posting_of(value: u64) -> (u64, u32) {
    ((value % OFFSET_LIMIT) as u64, (value / OFFSET_LIMIT) as u32)
}

/// The offset and the count that a term's value holds.
pub fn unpack_posting(value: u64) -> (posting: (u64, u32))
    ensures
        posting == posting_of(value),
        posting.0 < OFFSET_LIMIT,
        posting.1 <= MAX_POSTING_COUNT,
{
    assert(value & 0xff_ffff_ffff == value % 0x100_0000_0000) by (bit_vector);
    assert(value >> 40 == value / 0x100_0000_0000) by (bit_vector);
    (value & 0xff_ffff_ffff, (value >> 40) as u32)
}

/// Every offset and count that pack come back out of the packed value.
pub proof fn posting_round_trip(offset: u64, count: nat)
    requires
        offset < OFFSET_LIMIT,
        count <= MAX_POSTING_COUNT,
    ensures
        posting_of((offset + count * OFFSET_LIMIT) as u64) == (offset, count as u32),
{
}

/// A dictionary hit. `len` is the byte length of the posting list where the dictionary carries
/// it; without it the length follows from the count.
#[derive(Debug, Clone, Copy, PartialEq, Eq, Structural)]
pub struct TermValue {
    pub packed: u64,
    pub len: Option<u64>,
}

/// A term dictionary.
pub trait TermLookup {
    spec fn value(&self, gram: Seq<u8>) -> Result<Option<TermValue>, IndexError>;

    fn lookup(&self, gram: &[u8]) -> (found: Result<Option<TermValue>, IndexError>)
        ensures
            found == self.value(gram@),
    ;
}

/// A query with every gram resolved against the term dictionary.
#[derive(Debug)]
pub enum Resolved {
    All,
    Nothing,
    /// A gram with exactly one posting id, held in the term value itself.
    Doc(u32),
    Gram { offset: u64, count: u32, len: u64 },
    And(Vec<Resolved>),
    Or(Vec<Resolved>),
}

/// The model of `Resolved`.
pub enum Plan {
    All,
    Nothing,
    Doc(u32),
    Gram { offset: u64, count: u32, len: u64 },
    And(Seq<Plan>),
    Or(Seq<Plan>),
}

pub open spec fn plans(children: Seq<Resolved>) -> Seq<Plan>
    decreases children,
{
    Seq::new(
        children.len(),
        |i: int|
            if 0 <= i < children.len() {
                children[i].plan()
            } else {
                Plan::All
            },
    )
}

impl Resolved {
    pub open spec fn plan(self) -> Plan
        decreases self,
    {
        match self {
            Resolved::All => Plan::All,
            Resolved::Nothing => Plan::Nothing,
            Resolved::Doc(id) => Plan::Doc(id),
            Resolved::Gram { offset, count, len } => Plan::Gram { offset, count, len },
            Resolved::And(children) => Plan::And(plans(children@)),
            Resolved::Or(children) => Plan::Or(plans(children@)),
        }
    }
}

/// How many gram constraints an AND keeps.
pub open spec fn gram_limit(strategy: Strategy) -> nat {
    match strategy {
        Strategy::Trigram => BLOCK_MAX_GRAMS_PER_AND as nat,
        Strategy::Sparse => SPARSE_MAX_GRAMS_PER_AND as nat,
    }
}

/// What one gram resolves to. A gram at every id constrains nothing; one at a single id is held
/// in the term value, and an id outside the id space there is a corrupt dictionary.
pub open spec fn gram_plan(found: Option<TermValue>, id_space: u32) -> Result<Plan, IndexError> {
    match found {
        None => Ok(Plan::Nothing),
        Some(value) => {
            let (offset, count) = posting_of(value.packed);
            if count == 1 {
                if offset < id_space {
                    Ok(Plan::Doc(offset as u32))
                } else {
                    Err(IndexError::SingletonOutOfRange { offset, id_space })
                }
            } else if count >= id_space {
                Ok(Plan::All)
            } else {
                let len = match value.len {
                    Some(len) => len,
                    None => crate::posting_block::block_len(count, id_space) as u64,
                };
                Ok(Plan::Gram { offset, count, len })
            }
        },
    }
}

pub open spec fn is_gram(plan: Plan) -> bool {
    plan is Gram
}

pub open spec fn plan_count(plan: Plan) -> u32 {
    match plan {
        Plan::Gram { count, .. } => count,
        _ => u32::MAX,
    }
}

/// Insert after everything that is at least as rare.
pub open spec fn insert_by_count(sorted: Seq<Plan>, plan: Plan) -> Seq<Plan>
    decreases sorted.len(),
{
    if sorted.len() > 0 && plan_count(sorted.last()) > plan_count(plan) {
        insert_by_count(sorted.drop_last(), plan).push(sorted.last())
    } else {
        sorted.push(plan)
    }
}

/// Rarest first, equally rare ones in their given order.
pub open spec fn sort_by_count(grams: Seq<Plan>) -> Seq<Plan>
    decreases grams.len(),
{
    if grams.len() == 0 {
        grams
    } else {
        insert_by_count(sort_by_count(grams.drop_last()), grams.last())
    }
}

/// One constraint, or the conjunction of several.
pub open spec fn conjunction(children: Seq<Plan>) -> Plan {
    if children.len() == 1 {
        children[0]
    } else {
        Plan::And(children)
    }
}

/// The constraints that an AND keeps. Beside a single-id child every gram is redundant;
/// otherwise only the rarest grams stay, ahead of the other children.
pub open spec fn pruned(children: Seq<Plan>, strategy: Strategy) -> Plan {
    let grams = children.filter(|p: Plan| is_gram(p));
    let others = children.filter(|p: Plan| !is_gram(p));
    if exists|i: int| 0 <= i < children.len() && children[i] is Doc {
        conjunction(others)
    } else {
        let kept = if grams.len() > gram_limit(strategy) {
            sort_by_count(grams).take(gram_limit(strategy) as int)
        } else {
            grams
        };
        if kept.len() + others.len() == 0 {
            Plan::All
        } else {
            conjunction(kept + others)
        }
    }
}

/// What a query resolves to against a term dictionary.
pub open spec fn resolution<L: TermLookup>(
    q: Query,
    id_space: u32,
    strategy: Strategy,
    terms: L,
) -> Result<Plan, IndexError>
    decreases q, 0nat,
{
    match q {
        Query::All => Ok(Plan::All),
        Query::Gram(gram) => match terms.value(gram@) {
            Err(e) => Err(e),
            Ok(found) => gram_plan(found, id_space),
        },
        Query::And(subs) => and_resolution(subs@, 0, Seq::empty(), id_space, strategy, terms),
        Query::Or(subs) => or_resolution(subs@, 0, Seq::empty(), id_space, strategy, terms),
    }
}

/// An AND from child `i` on: an absent gram empties it at once, unconstrained children drop out.
pub open spec fn and_resolution<L: TermLookup>(
    subs: Seq<Query>,
    i: nat,
    kept: Seq<Plan>,
    id_space: u32,
    strategy: Strategy,
    terms: L,
) -> Result<Plan, IndexError>
    decreases subs, subs.len() - i,
{
    if i >= subs.len() {
        Ok(pruned(kept, strategy))
    } else {
        match resolution(subs[i as int], id_space, strategy, terms) {
            Err(e) => Err(e),
            Ok(Plan::Nothing) => Ok(Plan::Nothing),
            Ok(Plan::All) => and_resolution(subs, i + 1, kept, id_space, strategy, terms),
            Ok(plan) => and_resolution(subs, i + 1, kept.push(plan), id_space, strategy, terms),
        }
    }
}

/// An OR from child `i` on: an unconstrained child frees it at once, empty children drop out.
pub open spec fn or_resolution<L: TermLookup>(
    subs: Seq<Query>,
    i: nat,
    kept: Seq<Plan>,
    id_space: u32,
    strategy: Strategy,
    terms: L,
) -> Result<Plan, IndexError>
    decreases subs, subs.len() - i,
{
    if i >= subs.len() {
        if kept.len() == 1 {
            Ok(kept[0])
        } else if kept.len() == 0 {
            Ok(Plan::Nothing)
        } else {
            Ok(Plan::Or(kept))
        }
    } else {
        match resolution(subs[i as int], id_space, strategy, terms) {
            Err(e) => Err(e),
            Ok(Plan::All) => Ok(Plan::All),
            Ok(Plan::Nothing) => or_resolution(subs, i + 1, kept, id_space, strategy, terms),
            Ok(plan) => or_resolution(subs, i + 1, kept.push(plan), id_space, strategy, terms),
        }
    }
}

proof fn lemma_plans_push(children: Seq<Resolved>, child: Resolved)
    ensures
        plans(children.push(child)) == plans(children).push(child.plan()),
{
    assert(plans(children.push(child)) =~= plans(children).push(child.plan()));
}

proof fn lemma_filter_step<A>(s: Seq<A>, i: int, pred: spec_fn(A) -> bool)
    requires
        0 <= i < s.len(),
    ensures
        s.take(i + 1).filter(pred) == if pred(s[i]) {
            s.take(i).filter(pred).push(s[i])
        } else {
            s.take(i).filter(pred)
        },
{
    reveal(Seq::filter);
    assert(s.take(i + 1).drop_last() =~= s.take(i));
}

/// Resolve a query: no posting block is read for it.
pub fn resolve<L: TermLookup>(q: &Query, id_space: u32, strategy: Strategy, terms: &L) -> (resolved:
    Result<Resolved, IndexError>)
    ensures
        match resolved {
            Ok(r) => resolution(*q, id_space, strategy, *terms) == Ok::<Plan, IndexError>(r.plan()),
            Err(e) => resolution(*q, id_space, strategy, *terms) == Err::<Plan, IndexError>(e),
        },
    decreases q,
{
    match q {
        Query::All => Ok(Resolved::All),
        Query::Gram(gram) => {
            let found = match terms.lookup(gram.as_slice()) {
                Ok(found) => found,
                Err(e) => return Err(e),
            };
            match found {
                None => Ok(Resolved::Nothing),
                Some(value) => {
                    let (offset, count) = unpack_posting(value.packed);
                    if count == 1 {
                        if offset < id_space as u64 {
                            Ok(Resolved::Doc(offset as u32))
                        } else {
                            Err(IndexError::SingletonOutOfRange { offset, id_space })
                        }
                    } else if count >= id_space {
                        Ok(Resolved::All)
                    } else {
                        let len: u64 = match value.len {
                            Some(len) => len,
                            None => posting_block_len(count, id_space),
                        };
                        Ok(Resolved::Gram { offset, count, len })
                    }
                },
            }
        },
        Query::And(subs) => {
            let mut kept: Vec<Resolved> = Vec::new();
            let mut i: usize = 0;
            let ghost goal = resolution(*q, id_space, strategy, *terms);
            assert(plans(kept@) =~= Seq::<Plan>::empty());
            while i < subs.len()
                invariant
                    i <= subs.len(),
                    decreases_to!(q => subs@),
                    goal == resolution(*q, id_space, strategy, *terms),
                    goal == and_resolution(
                        subs@,
                        i as nat,
                        plans(kept@),
                        id_space,
                        strategy,
                        *terms,
                    ),
                decreases subs.len() - i,
            {
                let child = match resolve(&subs[i], id_space, strategy, terms) {
                    Ok(child) => child,
                    Err(e) => return Err(e),
                };
                match child {
                    Resolved::Nothing => return Ok(Resolved::Nothing),
                    Resolved::All => {},
                    child => {
                        proof {
                            lemma_plans_push(kept@, child);
                        }
                        kept.push(child);
                    },
                }
                i = i + 1;
            }
            Ok(prune_and(kept, strategy))
        },
        Query::Or(subs) => {
            let mut kept: Vec<Resolved> = Vec::new();
            let mut i: usize = 0;
            let ghost goal = resolution(*q, id_space, strategy, *terms);
            assert(plans(kept@) =~= Seq::<Plan>::empty());
            while i < subs.len()
                invariant
                    i <= subs.len(),
                    decreases_to!(q => subs@),
                    goal == resolution(*q, id_space, strategy, *terms),
                    goal == or_resolution(
                        subs@,
                        i as nat,
                        plans(kept@),
                        id_space,
                        strategy,
                        *terms,
                    ),
                decreases subs.len() - i,
            {
                let child = match resolve(&subs[i], id_space, strategy, terms) {
                    Ok(child) => child,
                    Err(e) => return Err(e),
                };
                match child {
                    Resolved::All => return Ok(Resolved::All),
                    Resolved::Nothing => {},
                    child => {
                        proof {
                            lemma_plans_push(kept@, child);
                        }
                        kept.push(child);
                    },
                }
                i = i + 1;
            }
            if kept.len() == 1 {
                Ok(kept.swap_remove(0))
            } else if kept.len() == 0 {
                Ok(Resolved::Nothing)
            } else {
                Ok(Resolved::Or(kept))
            }
        },
    }
}

/// Part the gram constraints from the other children, each side in its given order.
fn split_grams(children: Vec<Resolved>) -> (sides: (Vec<Resolved>, Vec<Resolved>))
    ensures
        plans(sides.0@) == plans(children@).filter(|p: Plan| is_gram(p)),
        plans(sides.1@) == plans(children@).filter(|p: Plan| !is_gram(p)),
{
    let ghost all = children@;
    let ghost views = plans(all);
    let mut rest = children;
    let mut grams: Vec<Resolved> = Vec::new();
    let mut others: Vec<Resolved> = Vec::new();
    let mut i: usize = 0;
    proof {
        reveal(Seq::filter);
        assert(views.take(0) =~= Seq::<Plan>::empty());
        assert(plans(grams@) =~= Seq::<Plan>::empty());
    }
    while i < rest.len()
        invariant
            i <= rest.len(),
            rest.len() == all.len(),
            views == plans(all),
            forall|k: int| i <= k < rest.len() ==> rest@[k] == all[k],
            plans(grams@) == views.take(i as int).filter(|p: Plan| is_gram(p)),
            plans(others@) == views.take(i as int).filter(|p: Plan| !is_gram(p)),
        decreases rest.len() - i,
    {
        let mut child = Resolved::Nothing;
        std::mem::swap(&mut rest[i], &mut child);
        proof {
            assert(child == all[i as int]);
            lemma_filter_step(views, i as int, |p: Plan| is_gram(p));
            lemma_filter_step(views, i as int, |p: Plan| !is_gram(p));
            lemma_plans_push(grams@, child);
            lemma_plans_push(others@, child);
        }
        let gram: bool = match &child {
            Resolved::Gram { .. } => true,
            _ => false,
        };
        if gram {
            grams.push(child);
        } else {
            others.push(child);
        }
        i = i + 1;
    }
    assert(views.take(i as int) =~= views);
    (grams, others)
}

fn posting_count(child: &Resolved) -> (count: u32)
    ensures
        count == plan_count(child.plan()),
{
    match child {
        Resolved::Gram { count, .. } => *count,
        _ => 0xffff_ffff,
    }
}

proof fn lemma_insert_by_count(sorted: Seq<Plan>, plan: Plan, at: int)
    requires
        0 <= at <= sorted.len(),
        forall|k: int| at <= k < sorted.len() ==> plan_count(#[trigger] sorted[k]) > plan_count(
            plan,
        ),
        at > 0 ==> plan_count(sorted[at - 1]) <= plan_count(plan),
    ensures
        insert_by_count(sorted, plan) == sorted.insert(at, plan),
    decreases sorted.len(),
{
    if at < sorted.len() {
        let front = sorted.drop_last();
        assert(plan_count(sorted[sorted.len() - 1]) > plan_count(plan));
        lemma_insert_by_count(front, plan, at);
        assert(front.insert(at, plan).push(sorted.last()) =~= sorted.insert(at, plan));
    } else {
        assert(sorted.push(plan) =~= sorted.insert(at, plan));
    }
}

/// Order gram constraints rarest first.
fn rarest_first(grams: Vec<Resolved>) -> (sorted: Vec<Resolved>)
    ensures
        plans(sorted@) == sort_by_count(plans(grams@)),
{
    let ghost all = grams@;
    let ghost views = plans(all);
    let mut rest = grams;
    let mut sorted: Vec<Resolved> = Vec::new();
    let mut i: usize = 0;
    assert(plans(sorted@) =~= sort_by_count(views.take(0)));
    while i < rest.len()
        invariant
            i <= rest.len(),
            rest.len() == all.len(),
            views == plans(all),
            forall|k: int| i <= k < rest.len() ==> rest@[k] == all[k],
            plans(sorted@) == sort_by_count(views.take(i as int)),
        decreases rest.len() - i,
    {
        let mut child = Resolved::Nothing;
        std::mem::swap(&mut rest[i], &mut child);
        let count: u32 = posting_count(&child);
        let mut at: usize = sorted.len();
        while at > 0 && posting_count(&sorted[at - 1]) > count
            invariant
                at <= sorted.len(),
                count == plan_count(child.plan()),
                forall|k: int|
                    at <= k < sorted.len() ==> plan_count(#[trigger] plans(sorted@)[k]) > count,
            decreases at,
        {
            assert(plans(sorted@)[at - 1] == sorted@[at - 1].plan());
            at = at - 1;
        }
        proof {
            assert(at > 0 ==> plans(sorted@)[at - 1] == sorted@[at - 1].plan());
            lemma_insert_by_count(plans(sorted@), child.plan(), at as int);
            assert(plans(sorted@.insert(at as int, child)) =~= plans(sorted@).insert(
                at as int,
                child.plan(),
            ));
            assert(views.take(i + 1).drop_last() =~= views.take(i as int));
            assert(views.take(i + 1).last() == child.plan());
        }
        sorted.insert(at, child);
        i = i + 1;
    }
    assert(views.take(i as int) =~= views);
    sorted
}

/// Drop redundant or excess gram constraints of an AND.
pub fn prune_and(children: Vec<Resolved>, strategy: Strategy) -> (resolved: Resolved)
    ensures
        resolved.plan() == pruned(plans(children@), strategy),
{
    let ghost views = plans(children@);
    let mut single: bool = false;
    let mut i: usize = 0;
    while i < children.len()
        invariant
            i <= children.len(),
            views == plans(children@),
            single <==> exists|k: int| 0 <= k < i && views[k] is Doc,
        decreases children.len() - i,
    {
        let doc: bool = match &children[i] {
            Resolved::Doc(_) => true,
            _ => false,
        };
        assert(doc <==> views[i as int] is Doc);
        if doc {
            single = true;
        }
        i = i + 1;
    }
    let (grams, others) = split_grams(children);
    if single {
        let mut docs = others;
        return if docs.len() == 1 { docs.swap_remove(0) } else { Resolved::And(docs) };
    }
    let limit: usize = match strategy {
        Strategy::Trigram => BLOCK_MAX_GRAMS_PER_AND,
        Strategy::Sparse => SPARSE_MAX_GRAMS_PER_AND,
    };
    let mut kept = grams;
    if kept.len() > limit {
        let mut sorted = rarest_first(kept);
        proof {
            lemma_sort_by_count_len(views.filter(|p: Plan| is_gram(p)));
        }
        let ghost full = sorted@;
        sorted.truncate(limit);
        assert(plans(sorted@) =~= plans(full).take(limit as int));
        kept = sorted;
    }
    let mut tail = others;
    let ghost front = kept@;
    let ghost back = tail@;
    kept.append(&mut tail);
    assert(plans(kept@) =~= plans(front) + plans(back));
    if kept.len() == 1 {
        kept.swap_remove(0)
    } else if kept.len() == 0 {
        Resolved::All
    } else {
        Resolved::And(kept)
    }
}

proof fn lemma_insert_by_count_len(sorted: Seq<Plan>, plan: Plan)
    ensures
        insert_by_count(sorted, plan).len() == sorted.len() + 1,
    decreases sorted.len(),
{
    if sorted.len() > 0 {
        lemma_insert_by_count_len(sorted.drop_last(), plan);
    }
}

proof fn lemma_sort_by_count_len(grams: Seq<Plan>)
    ensures
        sort_by_count(grams).len() == grams.len(),
    decreases grams.len(),
{
    if grams.len() > 0 {
        lemma_sort_by_count_len(grams.drop_last());
        lemma_insert_by_count_len(sort_by_count(grams.drop_last()), grams.last());
    }
}

/// The posting blocks that a plan reads: offset to id count and byte length.
pub open spec fn needed(plan: Plan, blocks: Map<u64, (u32, u64)>) -> Map<u64, (u32, u64)>
    decreases plan, 0nat,
{
    match plan {
        Plan::Gram { offset, count, len } => blocks.insert(offset, (count, len)),
        Plan::And(children) => needed_from(children, 0, blocks),
        Plan::Or(children) => needed_from(children, 0, blocks),
        _ => blocks,
    }
}

pub open spec fn needed_from(
    children: Seq<Plan>,
    i: nat,
    blocks: Map<u64, (u32, u64)>,
) -> Map<u64, (u32, u64)>
    decreases children, children.len() - i,
{
    if i >= children.len() {
        blocks
    } else {
        needed_from(children, i + 1, needed(children[i as int], blocks))
    }
}

/// Collect every posting block that the resolved query needs.
pub fn blocks_needed(resolved: &Resolved, out: &mut BTreeMap<u64, (u32, u64)>)
    ensures
        final(out)@ == needed(resolved.plan(), old(out)@),
    decreases resolved,
{
    broadcast use vstd::std_specs::btree::group_btree_axioms;

    match resolved {
        Resolved::Gram { offset, count, len } => {
            out.insert(*offset, (*count, *len));
        },
        Resolved::And(children) | Resolved::Or(children) => {
            let mut i: usize = 0;
            let ghost goal = needed(resolved.plan(), out@);
            while i < children.len()
                invariant
                    i <= children.len(),
                    decreases_to!(resolved => children@),
                    goal == needed_from(plans(children@), i as nat, out@),
                decreases children.len() - i,
            {
                blocks_needed(&children[i], out);
                i = i + 1;
            }
        },
        Resolved::All | Resolved::Nothing | Resolved::Doc(_) => {},
    }
}

/// Widening of posting ids to the neighbours that a match may reach into.
pub trait Expand {
    /// The ids that can be widened.
    spec fn accepts(&self, id: u32) -> bool;

    /// First and last id of the widened range.
    spec fn range(&self, id: u32) -> (u32, u32);

    fn expand(&self, id: u32) -> (range: (u32, u32))
        requires
            self.accepts(id),
        ensures
            range == self.range(id),
    ;
}

/// Every id stands for itself alone.
pub struct NoExpansion;

impl Expand for NoExpansion {
    open spec fn accepts(&self, id: u32) -> bool {
        true
    }

    open spec fn range(&self, id: u32) -> (u32, u32) {
        (id, id)
    }

    fn expand(&self, id: u32) -> (range: (u32, u32)) {
        (id, id)
    }
}

/// What a query selects.
#[derive(Debug)]
pub enum Selection {
    All,
    Ids(Vec<u32>),
}

impl Selection {
    /// The selected ids; `None` where everything is selected.
    pub open spec fn ids(self) -> Option<Set<u32>> {
        match self {
            Selection::All => None,
            Selection::Ids(ids) => Some(crate::ids::id_set(ids@)),
        }
    }
}

/// The union of the widened ranges of `ids`.
pub open spec fn widened<E: Expand>(ids: Seq<u32>, ex: E) -> Set<u32> {
    Set::new(
        |x: u32|
            exists|k: int|
                0 <= k < ids.len() && ex.range(#[trigger] ids[k]).0 <= x <= ex.range(ids[k]).1,
    )
}

/// What a plan selects from fetched blocks; `None` stands for everything.
pub open spec fn select<E: Expand>(plan: Plan, blocks: Map<u64, Vec<u32>>, ex: E) -> Result<
    Option<Set<u32>>,
    IndexError,
>
    decreases plan, 0nat,
{
    match plan {
        Plan::All => Ok(None),
        Plan::Nothing => Ok(Some(Set::empty())),
        Plan::Doc(id) => Ok(Some(widened(seq![id], ex))),
        Plan::Gram { offset, .. } => if blocks.contains_key(offset) {
            Ok(Some(widened(blocks[offset]@, ex)))
        } else {
            Err(IndexError::BlockNotFetched { offset })
        },
        Plan::And(children) => and_select(children, 0, None, blocks, ex),
        Plan::Or(children) => or_select(children, 0, Set::empty(), blocks, ex),
    }
}

/// The intersection of the constrained children; an empty child settles it.
pub open spec fn and_select<E: Expand>(
    children: Seq<Plan>,
    i: nat,
    acc: Option<Set<u32>>,
    blocks: Map<u64, Vec<u32>>,
    ex: E,
) -> Result<Option<Set<u32>>, IndexError>
    decreases children, children.len() - i,
{
    if i >= children.len() {
        Ok(acc)
    } else {
        match select(children[i as int], blocks, ex) {
            Err(e) => Err(e),
            Ok(None) => and_select(children, i + 1, acc, blocks, ex),
            Ok(Some(ids)) => if ids == Set::<u32>::empty() {
                Ok(Some(Set::empty()))
            } else {
                let both = match acc {
                    None => ids,
                    Some(seen) => seen.intersect(ids),
                };
                and_select(children, i + 1, Some(both), blocks, ex)
            },
        }
    }
}

/// The union of the children; an unconstrained child settles it.
pub open spec fn or_select<E: Expand>(
    children: Seq<Plan>,
    i: nat,
    acc: Set<u32>,
    blocks: Map<u64, Vec<u32>>,
    ex: E,
) -> Result<Option<Set<u32>>, IndexError>
    decreases children, children.len() - i,
{
    if i >= children.len() {
        Ok(Some(acc))
    } else {
        match select(children[i as int], blocks, ex) {
            Err(e) => Err(e),
            Ok(None) => Ok(None),
            Ok(Some(ids)) => or_select(children, i + 1, acc.union(ids), blocks, ex),
        }
    }
}

/// Every single-id child of the plan can be widened.
pub open spec fn docs_accepted(plan: Plan, accepts: spec_fn(u32) -> bool) -> bool
    decreases plan, 0nat,
{
    match plan {
        Plan::Doc(id) => accepts(id),
        Plan::And(children) => all_docs_accepted(children, accepts),
        Plan::Or(children) => all_docs_accepted(children, accepts),
        _ => true,
    }
}

pub open spec fn all_docs_accepted(children: Seq<Plan>, accepts: spec_fn(u32) -> bool) -> bool
    decreases children, 1nat,
{
    forall|i: int| 0 <= i < children.len() ==> docs_accepted(#[trigger] children[i], accepts)
}

/// Every fetched list is ascending, and its ids can be widened.
pub open spec fn blocks_accepted<E: Expand>(blocks: Map<u64, Vec<u32>>, ex: E) -> bool {
    forall|offset: u64| #[trigger]
        blocks.contains_key(offset) ==> crate::ids::ascending(blocks[offset]@) && forall|k: int|
            0 <= k < blocks[offset]@.len() ==> ex.accepts(#[trigger] blocks[offset]@[k])
}

/// The widened ids, ascending.
pub fn expand_ids<E: Expand>(ids: &[u32], ex: &E) -> (expanded: Vec<u32>)
    requires
        forall|k: int| 0 <= k < ids@.len() ==> ex.accepts(#[trigger] ids@[k]),
    ensures
        crate::ids::ascending(expanded@),
        crate::ids::id_set(expanded@) == widened(ids@, *ex),
{
    let mut all: Vec<u32> = Vec::new();
    let mut i: usize = 0;
    while i < ids.len()
        invariant
            i <= ids.len(),
            forall|k: int| 0 <= k < ids@.len() ==> ex.accepts(#[trigger] ids@[k]),
            forall|x: u32| all@.contains(x) <==> widened(ids@.take(i as int), *ex).contains(x),
        decreases ids.len() - i,
    {
        let (first, last) = ex.expand(ids[i]);
        let ghost before = all@;
        let mut done: bool = first > last;
        let mut next: u32 = first;
        while !done
            invariant
                done ==> forall|x: u32|
                    all@.contains(x) <==> before.contains(x) || first <= x <= last,
                !done ==> first <= next <= last && forall|x: u32|
                    all@.contains(x) <==> before.contains(x) || first <= x < next,
            decreases
                (if done {
                    0
                } else {
                    last - next + 1
                }),
        {
            let ghost mid = all@;
            all.push(next);
            assert forall|x: u32| all@.contains(x) <==> mid.contains(x) || x == next by {
                if mid.contains(x) {
                    let k = choose|k: int| 0 <= k < mid.len() && mid[k] == x;
                    assert(all@[k] == x);
                }
                if all@.contains(x) {
                    let k = choose|k: int| 0 <= k < all@.len() && all@[k] == x;
                    if k < mid.len() {
                        assert(mid[k] == x);
                    }
                }
                assert(all@[mid.len() as int] == next);
            }
            if next == last {
                done = true;
            } else {
                next = next + 1;
            }
        }
        proof {
            let front = ids@.take(i as int);
            let grown = ids@.take(i + 1);
            assert forall|x: u32| all@.contains(x) <==> widened(grown, *ex).contains(x) by {
                if widened(front, *ex).contains(x) {
                    let k = choose|k: int|
                        0 <= k < front.len() && ex.range(#[trigger] front[k]).0 <= x <= ex.range(
                            front[k],
                        ).1;
                    assert(grown[k] == front[k]);
                }
                if widened(grown, *ex).contains(x) {
                    let k = choose|k: int|
                        0 <= k < grown.len() && ex.range(#[trigger] grown[k]).0 <= x <= ex.range(
                            grown[k],
                        ).1;
                    if k < i {
                        assert(front[k] == grown[k]);
                    }
                }
                assert(grown[i as int] == ids@[i as int]);
                assert(before.contains(x) <==> widened(front, *ex).contains(x));
            }
        }
        i = i + 1;
    }
    assert(ids@.take(i as int) =~= ids@);
    let expanded = sort_dedup(all);
    assert(crate::ids::id_set(expanded@) =~= widened(ids@, *ex));
    expanded
}

/// Evaluate a resolved query over fetched blocks.
pub fn eval<E: Expand>(resolved: &Resolved, blocks: &BTreeMap<u64, Vec<u32>>, ex: &E) -> (selection:
    Result<Selection, IndexError>)
    requires
        blocks_accepted(blocks@, *ex),
        docs_accepted(resolved.plan(), |id: u32| ex.accepts(id)),
    ensures
        match selection {
            Ok(s) => select(resolved.plan(), blocks@, *ex) == Ok::<Option<Set<u32>>, IndexError>(
                s.ids(),
            ) && (s matches Selection::Ids(ids) ==> crate::ids::ascending(ids@)),
            Err(e) => select(resolved.plan(), blocks@, *ex) == Err::<Option<Set<u32>>, IndexError>(
                e,
            ),
        },
    decreases resolved,
{
    broadcast use vstd::std_specs::btree::group_btree_axioms;

    match resolved {
        Resolved::All => Ok(Selection::All),
        Resolved::Nothing => {
            let none: Vec<u32> = Vec::new();
            assert(crate::ids::id_set(none@) =~= Set::<u32>::empty());
            Ok(Selection::Ids(none))
        },
        Resolved::Doc(id) => {
            let one: Vec<u32> = vec![*id];
            assert(one@ =~= seq![*id]);
            Ok(Selection::Ids(expand_ids(one.as_slice(), ex)))
        },
        Resolved::Gram { offset, .. } => match blocks.get(offset) {
            Some(ids) => Ok(Selection::Ids(expand_ids(ids.as_slice(), ex))),
            None => Err(IndexError::BlockNotFetched { offset: *offset }),
        },
        Resolved::And(children) => {
            let mut acc: Selection = Selection::All;
            let mut i: usize = 0;
            let ghost views = plans(children@);
            let ghost goal = select(resolved.plan(), blocks@, *ex);
            while i < children.len()
                invariant
                    i <= children.len(),
                    decreases_to!(resolved => children@),
                    views == plans(children@),
                    blocks_accepted(blocks@, *ex),
                    all_docs_accepted(views, |id: u32| ex.accepts(id)),
                    acc matches Selection::Ids(ids) ==> crate::ids::ascending(ids@),
                    goal == and_select(views, i as nat, acc.ids(), blocks@, *ex),
                    goal == select(resolved.plan(), blocks@, *ex),
                decreases children.len() - i,
            {
                assert(docs_accepted(views[i as int], |id: u32| ex.accepts(id)));
                let child = match eval(&children[i], blocks, ex) {
                    Ok(child) => child,
                    Err(e) => return Err(e),
                };
                if let Selection::Ids(ids) = child {
                    if ids.len() == 0 {
                        assert(crate::ids::id_set(ids@) =~= Set::<u32>::empty());
                        return Ok(Selection::Ids(ids));
                    }
                    assert(crate::ids::id_set(ids@).contains(ids@[0]));
                    acc = match acc {
                        Selection::All => Selection::Ids(ids),
                        Selection::Ids(seen) => Selection::Ids(
                            intersect(seen.as_slice(), ids.as_slice()),
                        ),
                    };
                }
                i = i + 1;
            }
            Ok(acc)
        },
        Resolved::Or(children) => {
            let mut all: Vec<u32> = Vec::new();
            let mut i: usize = 0;
            let ghost views = plans(children@);
            let ghost goal = select(resolved.plan(), blocks@, *ex);
            assert(crate::ids::id_set(all@) =~= Set::<u32>::empty());
            while i < children.len()
                invariant
                    i <= children.len(),
                    decreases_to!(resolved => children@),
                    views == plans(children@),
                    blocks_accepted(blocks@, *ex),
                    all_docs_accepted(views, |id: u32| ex.accepts(id)),
                    goal == or_select(
                        views,
                        i as nat,
                        crate::ids::id_set(all@),
                        blocks@,
                        *ex,
                    ),
                    goal == select(resolved.plan(), blocks@, *ex),
                decreases children.len() - i,
            {
                assert(docs_accepted(views[i as int], |id: u32| ex.accepts(id)));
                let child = match eval(&children[i], blocks, ex) {
                    Ok(child) => child,
                    Err(e) => return Err(e),
                };
                match child {
                    Selection::All => return Ok(Selection::All),
                    Selection::Ids(ids) => {
                        let ghost before = all@;
                        let ghost added = ids@;
                        let mut ids = ids;
                        all.append(&mut ids);
                        proof {
                            assert(all@ =~= before + added);
                            assert forall|x: u32|
                                crate::ids::id_set(all@).contains(x) <==> crate::ids::id_set(
                                    before,
                                ).union(crate::ids::id_set(added)).contains(x) by {
                                if before.contains(x) {
                                    let k = choose|k: int| 0 <= k < before.len() && before[k] == x;
                                    assert(all@[k] == x);
                                }
                                if added.contains(x) {
                                    let k = choose|k: int| 0 <= k < added.len() && added[k] == x;
                                    assert(all@[before.len() + k] == x);
                                }
                                if all@.contains(x) {
                                    let k = choose|k: int| 0 <= k < all@.len() && all@[k] == x;
                                    if k < before.len() {
                                        assert(before[k] == x);
                                    } else {
                                        assert(added[k - before.len()] == x);
                                    }
                                }
                            }
                            assert(crate::ids::id_set(all@) =~= crate::ids::id_set(before).union(
                                crate::ids::id_set(added),
                            ));
                        }
                    },
                }
                i = i + 1;
            }
            Ok(Selection::Ids(sort_dedup(all)))
        },
    }
}

/// A plan lets an id through that is near one that it leads to, given what the fetched blocks
/// hold.
pub open spec fn lets_through(plan: Plan, near: spec_fn(u32) -> bool, blocks: Map<u64, Vec<u32>>) -> bool
    decreases plan, 0nat,
{
    match plan {
        Plan::All => true,
        Plan::Nothing => false,
        Plan::Doc(only) => near(only),
        Plan::Gram { offset, .. } => blocks.contains_key(offset) ==> exists|k: int|
            0 <= k < blocks[offset]@.len() && near(#[trigger] blocks[offset]@[k]),
        Plan::And(children) => all_let_through(children, near, blocks),
        Plan::Or(children) => any_lets_through(children, near, blocks),
    }
}

pub open spec fn all_let_through(
    children: Seq<Plan>,
    near: spec_fn(u32) -> bool,
    blocks: Map<u64, Vec<u32>>,
) -> bool
    decreases children, 1nat,
{
    forall|i: int| 0 <= i < children.len() ==> lets_through(#[trigger] children[i], near, blocks)
}

pub open spec fn any_lets_through(
    children: Seq<Plan>,
    near: spec_fn(u32) -> bool,
    blocks: Map<u64, Vec<u32>>,
) -> bool
    decreases children, 1nat,
{
    exists|i: int| 0 <= i < children.len() && lets_through(#[trigger] children[i], near, blocks)
}

/// Dictionary and blocks miss nothing: where `has` puts a gram at an id, a lookup of the gram
/// leads to that id.
pub open spec fn postings_complete<L: TermLookup>(
    terms: L,
    id_space: u32,
    blocks: Map<u64, Vec<u32>>,
    has: spec_fn(u32, Seq<u8>) -> bool,
) -> bool {
    forall|id: u32, gram: Seq<u8>|
        id < id_space && #[trigger] has(id, gram) ==> match terms.value(gram) {
            Err(_) => true,
            Ok(None) => false,
            Ok(Some(value)) => {
                let (offset, count) = posting_of(value.packed);
                if count == 1 {
                    offset == id
                } else {
                    count < id_space && blocks.contains_key(offset)
                        ==> blocks[offset]@.contains(id)
                }
            },
        }
}

/// Everything in `some` is also in `all`.
spec fn drawn_from(some: Seq<Plan>, all: Seq<Plan>) -> bool {
    forall|i: int| 0 <= i < some.len() ==> all.contains(#[trigger] some[i])
}

proof fn lemma_filter_drawn(s: Seq<Plan>, pred: spec_fn(Plan) -> bool)
    ensures
        drawn_from(s.filter(pred), s),
    decreases s.len(),
{
    reveal(Seq::filter);
    if s.len() > 0 {
        let front = s.drop_last();
        lemma_filter_drawn(front, pred);
        let out = s.filter(pred);
        assert forall|i: int| 0 <= i < out.len() implies s.contains(#[trigger] out[i]) by {
            if i < front.filter(pred).len() {
                assert(front.contains(front.filter(pred)[i]));
                let k = choose|k: int| 0 <= k < front.len() && front[k] == out[i];
                assert(s[k] == out[i]);
            } else {
                assert(s[s.len() - 1] == out[i]);
            }
        }
    }
}

proof fn lemma_insert_drawn(sorted: Seq<Plan>, plan: Plan)
    ensures
        drawn_from(insert_by_count(sorted, plan), sorted.push(plan)),
    decreases sorted.len(),
{
    let out = insert_by_count(sorted, plan);
    let all = sorted.push(plan);
    if sorted.len() > 0 && plan_count(sorted.last()) > plan_count(plan) {
        let front = sorted.drop_last();
        lemma_insert_drawn(front, plan);
        assert forall|i: int| 0 <= i < out.len() implies all.contains(#[trigger] out[i]) by {
            if i < out.len() - 1 {
                assert(insert_by_count(front, plan)[i] == out[i]);
                assert(front.push(plan).contains(out[i]));
                let k = choose|k: int|
                    0 <= k < front.push(plan).len() && front.push(plan)[k] == out[i];
                if k < front.len() {
                    assert(all[k] == out[i]);
                } else {
                    assert(all[sorted.len() as int] == out[i]);
                }
            } else {
                assert(all[sorted.len() - 1] == out[i]);
            }
        }
    } else {
        assert forall|i: int| 0 <= i < out.len() implies all.contains(#[trigger] out[i]) by {
            assert(all[i] == out[i]);
        }
    }
}

proof fn lemma_sort_drawn(grams: Seq<Plan>)
    ensures
        drawn_from(sort_by_count(grams), grams),
    decreases grams.len(),
{
    if grams.len() > 0 {
        let front = grams.drop_last();
        lemma_sort_drawn(front);
        let sorted = sort_by_count(front);
        lemma_insert_drawn(sorted, grams.last());
        let out = sort_by_count(grams);
        assert forall|i: int| 0 <= i < out.len() implies grams.contains(#[trigger] out[i]) by {
            let all = sorted.push(grams.last());
            assert(all.contains(out[i]));
            let k = choose|k: int| 0 <= k < all.len() && all[k] == out[i];
            if k < sorted.len() {
                assert(front.contains(sorted[k]));
                let m = choose|m: int| 0 <= m < front.len() && front[m] == sorted[k];
                assert(grams[m] == out[i]);
            } else {
                assert(grams[grams.len() - 1] == out[i]);
            }
        }
    } else {
        assert(sort_by_count(grams) =~= Seq::<Plan>::empty());
    }
}

proof fn lemma_drawn_trans(a: Seq<Plan>, b: Seq<Plan>, c: Seq<Plan>)
    requires
        drawn_from(a, b),
        drawn_from(b, c),
    ensures
        drawn_from(a, c),
{
    assert forall|i: int| 0 <= i < a.len() implies c.contains(#[trigger] a[i]) by {
        let k = choose|k: int| 0 <= k < b.len() && b[k] == a[i];
        assert(c.contains(b[k]));
    }
}

/// Pruning keeps nothing but given constraints.
proof fn lemma_pruned(children: Seq<Plan>, strategy: Strategy)
    ensures
        ({
            let plan = pruned(children, strategy);
            ||| plan is All
            ||| children.contains(plan)
            ||| exists|kept: Seq<Plan>| plan == Plan::And(kept) && #[trigger] drawn_from(
                kept,
                children,
            )
        }),
{
    let grams = children.filter(|p: Plan| is_gram(p));
    let others = children.filter(|p: Plan| !is_gram(p));
    lemma_filter_drawn(children, |p: Plan| is_gram(p));
    lemma_filter_drawn(children, |p: Plan| !is_gram(p));
    let kept = if grams.len() > gram_limit(strategy) {
        sort_by_count(grams).take(gram_limit(strategy) as int)
    } else {
        grams
    };
    lemma_sort_by_count_len(grams);
    lemma_sort_drawn(grams);
    lemma_drawn_trans(sort_by_count(grams), grams, children);
    assert(drawn_from(kept, children)) by {
        assert forall|i: int| 0 <= i < kept.len() implies children.contains(#[trigger] kept[i]) by {
            if grams.len() > gram_limit(strategy) {
                assert(sort_by_count(grams)[i] == kept[i]);
            }
        }
    }
    let both = kept + others;
    assert(drawn_from(both, children)) by {
        assert forall|i: int| 0 <= i < both.len() implies children.contains(#[trigger] both[i]) by {
            if i < kept.len() {
                assert(both[i] == kept[i]);
            } else {
                assert(both[i] == others[i - kept.len()]);
            }
        }
    }
    if exists|i: int| 0 <= i < children.len() && children[i] is Doc {
        if others.len() == 1 {
            assert(children.contains(others[0]));
        }
    } else if both.len() == 1 {
        assert(children.contains(both[0]));
    }
}

proof fn lemma_pruned_lets_through(
    children: Seq<Plan>,
    strategy: Strategy,
    near: spec_fn(u32) -> bool,
    blocks: Map<u64, Vec<u32>>,
)
    requires
        all_let_through(children, near, blocks),
    ensures
        lets_through(pruned(children, strategy), near, blocks),
{
    lemma_pruned(children, strategy);
    let plan = pruned(children, strategy);
    if plan is All {
    } else if children.contains(plan) {
        let k = choose|k: int| 0 <= k < children.len() && children[k] == plan;
        assert(lets_through(children[k], near, blocks));
    } else {
        let kept = choose|kept: Seq<Plan>|
            plan == Plan::And(kept) && #[trigger] drawn_from(kept, children);
        assert(all_let_through(kept, near, blocks)) by {
            assert forall|i: int| 0 <= i < kept.len() implies lets_through(
                #[trigger] kept[i],
                near,
                blocks,
            ) by {
                let k = choose|k: int| 0 <= k < children.len() && children[k] == kept[i];
                assert(lets_through(children[k], near, blocks));
            }
        }
    }
}

/// The grams that an id nearby has.
pub open spec fn grams_near(
    has: spec_fn(u32, Seq<u8>) -> bool,
    near: spec_fn(u32) -> bool,
    id_space: u32,
) -> spec_fn(Seq<u8>) -> bool {
    |gram: Seq<u8>|
        exists|x: u32| x < id_space && #[trigger] near(x) && has(x, gram)
}

proof fn lemma_resolution_lets_through<L: TermLookup>(
    q: Query,
    id_space: u32,
    strategy: Strategy,
    terms: L,
    blocks: Map<u64, Vec<u32>>,
    has: spec_fn(u32, Seq<u8>) -> bool,
    near: spec_fn(u32) -> bool,
)
    requires
        postings_complete(terms, id_space, blocks, has),
        crate::query::holds(q, grams_near(has, near, id_space)),
    ensures
        resolution(q, id_space, strategy, terms) matches Ok(plan) ==> lets_through(
            plan,
            near,
            blocks,
        ),
    decreases q, 0nat,
{
    match q {
        Query::All => {},
        Query::Gram(gram) => {
            let x = choose|x: u32| x < id_space && #[trigger] near(x) && has(x, gram@);
            assert(has(x, gram@));
            if let Ok(Some(value)) = terms.value(gram@) {
                let (offset, count) = posting_of(value.packed);
                if count != 1 && count < id_space && blocks.contains_key(offset) {
                    let k = choose|k: int|
                        0 <= k < blocks[offset]@.len() && blocks[offset]@[k] == x;
                    assert(near(blocks[offset]@[k]));
                }
            }
        },
        Query::And(subs) => {
            assert(crate::query::all_hold(subs@, grams_near(has, near, id_space)));
            lemma_and_lets_through(
                subs@,
                0,
                Seq::empty(),
                id_space,
                strategy,
                terms,
                blocks,
                has,
                near,
            );
        },
        Query::Or(subs) => {
            assert(crate::query::any_holds(subs@, grams_near(has, near, id_space)));
            let k = choose|k: int|
                0 <= k < subs@.len() && crate::query::holds(
                    #[trigger] subs@[k],
                    grams_near(has, near, id_space),
                );
            lemma_or_lets_through(
                subs@,
                0,
                Seq::empty(),
                k,
                id_space,
                strategy,
                terms,
                blocks,
                has,
                near,
            );
        },
    }
}

proof fn lemma_and_lets_through<L: TermLookup>(
    subs: Seq<Query>,
    i: nat,
    kept: Seq<Plan>,
    id_space: u32,
    strategy: Strategy,
    terms: L,
    blocks: Map<u64, Vec<u32>>,
    has: spec_fn(u32, Seq<u8>) -> bool,
    near: spec_fn(u32) -> bool,
)
    requires
        postings_complete(terms, id_space, blocks, has),
        crate::query::all_hold(subs, grams_near(has, near, id_space)),
        all_let_through(kept, near, blocks),
    ensures
        and_resolution(subs, i, kept, id_space, strategy, terms) matches Ok(plan) ==> lets_through(
            plan,
            near,
            blocks,
        ),
    decreases subs, subs.len() - i,
{
    if i >= subs.len() {
        lemma_pruned_lets_through(kept, strategy, near, blocks);
    } else {
        let sub = subs[i as int];
        assert(crate::query::holds(sub, grams_near(has, near, id_space)));
        lemma_resolution_lets_through(sub, id_space, strategy, terms, blocks, has, near);
        if let Ok(plan) = resolution(sub, id_space, strategy, terms) {
            if plan is All {
                lemma_and_lets_through(
                    subs,
                    i + 1,
                    kept,
                    id_space,
                    strategy,
                    terms,
                    blocks,
                    has,
                    near,
                );
            } else if !(plan is Nothing) {
                let grown = kept.push(plan);
                assert(all_let_through(grown, near, blocks)) by {
                    assert forall|k: int| 0 <= k < grown.len() implies lets_through(
                        #[trigger] grown[k],
                        near,
                        blocks,
                    ) by {
                        if k < kept.len() {
                            assert(lets_through(kept[k], near, blocks));
                        }
                    }
                }
                lemma_and_lets_through(
                    subs,
                    i + 1,
                    grown,
                    id_space,
                    strategy,
                    terms,
                    blocks,
                    has,
                    near,
                );
            }
        }
    }
}

proof fn lemma_or_lets_through<L: TermLookup>(
    subs: Seq<Query>,
    i: nat,
    kept: Seq<Plan>,
    hit: int,
    id_space: u32,
    strategy: Strategy,
    terms: L,
    blocks: Map<u64, Vec<u32>>,
    has: spec_fn(u32, Seq<u8>) -> bool,
    near: spec_fn(u32) -> bool,
)
    requires
        postings_complete(terms, id_space, blocks, has),
        0 <= hit < subs.len(),
        crate::query::holds(subs[hit], grams_near(has, near, id_space)),
        i <= hit || any_lets_through(kept, near, blocks),
    ensures
        or_resolution(subs, i, kept, id_space, strategy, terms) matches Ok(plan) ==> lets_through(
            plan,
            near,
            blocks,
        ),
    decreases subs, subs.len() - i,
{
    if i >= subs.len() {
        let k = choose|k: int|
            0 <= k < kept.len() && lets_through(#[trigger] kept[k], near, blocks);
        if kept.len() == 1 {
            assert(k == 0);
        }
    } else {
        let sub = subs[i as int];
        if i == hit {
            lemma_resolution_lets_through(sub, id_space, strategy, terms, blocks, has, near);
        }
        if let Ok(plan) = resolution(sub, id_space, strategy, terms) {
            if plan is Nothing {
                lemma_or_lets_through(
                    subs,
                    i + 1,
                    kept,
                    hit,
                    id_space,
                    strategy,
                    terms,
                    blocks,
                    has,
                    near,
                );
            } else if !(plan is All) {
                let grown = kept.push(plan);
                if i >= hit {
                    if i == hit {
                        assert(lets_through(grown[kept.len() as int], near, blocks));
                    } else {
                        let k = choose|k: int|
                            0 <= k < kept.len() && lets_through(#[trigger] kept[k], near, blocks);
                        assert(grown[k] == kept[k]);
                    }
                    assert(any_lets_through(grown, near, blocks));
                }
                lemma_or_lets_through(
                    subs,
                    i + 1,
                    grown,
                    hit,
                    id_space,
                    strategy,
                    terms,
                    blocks,
                    has,
                    near,
                );
            }
        }
    }
}

spec fn reaches(selected: Option<Set<u32>>, id: u32) -> bool {
    match selected {
        None => true,
        Some(ids) => ids.contains(id),
    }
}

proof fn lemma_select_reaches<E: Expand>(
    plan: Plan,
    blocks: Map<u64, Vec<u32>>,
    ex: E,
    near: spec_fn(u32) -> bool,
    id: u32,
)
    requires
        lets_through(plan, near, blocks),
        forall|x: u32| #[trigger] near(x) ==> ex.range(x).0 <= id <= ex.range(x).1,
    ensures
        select(plan, blocks, ex) matches Ok(selected) ==> reaches(selected, id),
    decreases plan, 0nat,
{
    match plan {
        Plan::Doc(only) => {
            assert(seq![only][0] == only);
        },
        Plan::Gram { offset, .. } => {
            if blocks.contains_key(offset) {
                let ids = blocks[offset]@;
                let k = choose|k: int| 0 <= k < ids.len() && near(#[trigger] ids[k]);
                assert(near(ids[k]));
            }
        },
        Plan::And(children) => {
            lemma_and_select_reaches(children, 0, None, blocks, ex, near, id);
        },
        Plan::Or(children) => {
            let k = choose|k: int|
                0 <= k < children.len() && lets_through(#[trigger] children[k], near, blocks);
            lemma_or_select_reaches(children, 0, Set::empty(), k, blocks, ex, near, id);
        },
        _ => {},
    }
}

proof fn lemma_and_select_reaches<E: Expand>(
    children: Seq<Plan>,
    i: nat,
    acc: Option<Set<u32>>,
    blocks: Map<u64, Vec<u32>>,
    ex: E,
    near: spec_fn(u32) -> bool,
    id: u32,
)
    requires
        all_let_through(children, near, blocks),
        reaches(acc, id),
        forall|x: u32| #[trigger] near(x) ==> ex.range(x).0 <= id <= ex.range(x).1,
    ensures
        and_select(children, i, acc, blocks, ex) matches Ok(selected) ==> reaches(selected, id),
    decreases children, children.len() - i,
{
    if i < children.len() {
        let child = children[i as int];
        assert(lets_through(child, near, blocks));
        lemma_select_reaches(child, blocks, ex, near, id);
        if let Ok(selected) = select(child, blocks, ex) {
            match selected {
                None => lemma_and_select_reaches(children, i + 1, acc, blocks, ex, near, id),
                Some(ids) => {
                    assert(ids.contains(id));
                    let both = match acc {
                        None => ids,
                        Some(seen) => seen.intersect(ids),
                    };
                    lemma_and_select_reaches(children, i + 1, Some(both), blocks, ex, near, id);
                },
            }
        }
    }
}

proof fn lemma_or_select_reaches<E: Expand>(
    children: Seq<Plan>,
    i: nat,
    acc: Set<u32>,
    hit: int,
    blocks: Map<u64, Vec<u32>>,
    ex: E,
    near: spec_fn(u32) -> bool,
    id: u32,
)
    requires
        0 <= hit < children.len(),
        lets_through(children[hit], near, blocks),
        i <= hit || acc.contains(id),
        forall|x: u32| #[trigger] near(x) ==> ex.range(x).0 <= id <= ex.range(x).1,
    ensures
        or_select(children, i, acc, blocks, ex) matches Ok(selected) ==> reaches(selected, id),
    decreases children, children.len() - i,
{
    if i < children.len() {
        let child = children[i as int];
        if i == hit {
            lemma_select_reaches(child, blocks, ex, near, id);
        }
        if let Ok(selected) = select(child, blocks, ex) {
            if let Some(ids) = selected {
                lemma_or_select_reaches(children, i + 1, acc.union(ids), hit, blocks, ex, near, id);
            }
        }
    }
}

/// Narrowing never loses a match: an id at which the query holds is among the selected ids,
/// whatever was pruned and however ids are widened.
pub proof fn candidates_cover_matches<L: TermLookup, E: Expand>(
    q: Query,
    id_space: u32,
    strategy: Strategy,
    terms: L,
    blocks: Map<u64, Vec<u32>>,
    ex: E,
    has: spec_fn(u32, Seq<u8>) -> bool,
    id: u32,
)
    requires
        postings_complete(terms, id_space, blocks, has),
        ex.range(id).0 <= id <= ex.range(id).1,
        id < id_space,
        crate::query::holds(q, |gram: Seq<u8>| has(id, gram)),
    ensures
        resolution(q, id_space, strategy, terms) matches Ok(plan) ==> (select(
            plan,
            blocks,
            ex,
        ) matches Ok(selected) ==> (selected matches Some(ids) ==> ids.contains(id))),
{
    let near = |x: u32| x == id;
    assert(near(id));
    assert(grams_near(has, near, id_space) =~= |gram: Seq<u8>| has(id, gram));
    widened_candidates_cover_matches(q, id_space, strategy, terms, blocks, ex, has, near, id);
}

/// Widening lets the ids of one document answer together: where each gram that the query needs is
/// had by an id whose widened range reaches `id`, `id` is among the selected ids.
pub proof fn widened_candidates_cover_matches<L: TermLookup, E: Expand>(
    q: Query,
    id_space: u32,
    strategy: Strategy,
    terms: L,
    blocks: Map<u64, Vec<u32>>,
    ex: E,
    has: spec_fn(u32, Seq<u8>) -> bool,
    near: spec_fn(u32) -> bool,
    id: u32,
)
    requires
        postings_complete(terms, id_space, blocks, has),
        forall|x: u32| #[trigger] near(x) ==> ex.range(x).0 <= id <= ex.range(x).1,
        crate::query::holds(q, grams_near(has, near, id_space)),
    ensures
        resolution(q, id_space, strategy, terms) matches Ok(plan) ==> (select(
            plan,
            blocks,
            ex,
        ) matches Ok(selected) ==> (selected matches Some(ids) ==> ids.contains(id))),
{
    lemma_resolution_lets_through(q, id_space, strategy, terms, blocks, has, near);
    if let Ok(plan) = resolution(q, id_space, strategy, terms) {
        lemma_select_reaches(plan, blocks, ex, near, id);
    }
}

proof fn lemma_needed_grows(plan: Plan, blocks: Map<u64, (u32, u64)>, offset: u64)
    requires
        blocks.contains_key(offset),
    ensures
        needed(plan, blocks).contains_key(offset),
    decreases plan, 0nat,
{
    match plan {
        Plan::And(children) => lemma_needed_from_grows(children, 0, blocks, offset),
        Plan::Or(children) => lemma_needed_from_grows(children, 0, blocks, offset),
        _ => {},
    }
}

proof fn lemma_needed_from_grows(
    children: Seq<Plan>,
    i: nat,
    blocks: Map<u64, (u32, u64)>,
    offset: u64,
)
    requires
        blocks.contains_key(offset),
    ensures
        needed_from(children, i, blocks).contains_key(offset),
    decreases children, children.len() - i,
{
    if i < children.len() {
        lemma_needed_grows(children[i as int], blocks, offset);
        lemma_needed_from_grows(children, i + 1, needed(children[i as int], blocks), offset);
    }
}

proof fn lemma_needed_suffices<E: Expand>(
    plan: Plan,
    seen: Map<u64, (u32, u64)>,
    blocks: Map<u64, Vec<u32>>,
    ex: E,
)
    requires
        needed(plan, seen).dom().subset_of(blocks.dom()),
    ensures
        select(plan, blocks, ex) is Ok,
    decreases plan, 0nat,
{
    match plan {
        Plan::Gram { offset, count, len } => {
            assert(needed(plan, seen).dom().contains(offset));
        },
        Plan::And(children) => {
            lemma_needed_suffices_and(children, 0, None, seen, blocks, ex);
        },
        Plan::Or(children) => {
            lemma_needed_suffices_or(children, 0, Set::empty(), seen, blocks, ex);
        },
        _ => {},
    }
}

proof fn lemma_needed_head(
    children: Seq<Plan>,
    i: nat,
    seen: Map<u64, (u32, u64)>,
    blocks: Map<u64, Vec<u32>>,
)
    requires
        i < children.len(),
        needed_from(children, i, seen).dom().subset_of(blocks.dom()),
    ensures
        needed(children[i as int], seen).dom().subset_of(blocks.dom()),
{
    let head = needed(children[i as int], seen);
    assert forall|offset: u64| head.dom().contains(offset) implies blocks.dom().contains(
        offset,
    ) by {
        lemma_needed_from_grows(children, i + 1, head, offset);
        assert(needed_from(children, i, seen).dom().contains(offset));
    }
}

proof fn lemma_needed_suffices_and<E: Expand>(
    children: Seq<Plan>,
    i: nat,
    acc: Option<Set<u32>>,
    seen: Map<u64, (u32, u64)>,
    blocks: Map<u64, Vec<u32>>,
    ex: E,
)
    requires
        needed_from(children, i, seen).dom().subset_of(blocks.dom()),
    ensures
        and_select(children, i, acc, blocks, ex) is Ok,
    decreases children, children.len() - i,
{
    if i < children.len() {
        let child = children[i as int];
        lemma_needed_head(children, i, seen, blocks);
        lemma_needed_suffices(child, seen, blocks, ex);
        if let Ok(selected) = select(child, blocks, ex) {
            let next = match selected {
                None => acc,
                Some(ids) => match acc {
                    None => Some(ids),
                    Some(before) => Some(before.intersect(ids)),
                },
            };
            lemma_needed_suffices_and(children, i + 1, next, needed(child, seen), blocks, ex);
        }
    }
}

proof fn lemma_needed_suffices_or<E: Expand>(
    children: Seq<Plan>,
    i: nat,
    acc: Set<u32>,
    seen: Map<u64, (u32, u64)>,
    blocks: Map<u64, Vec<u32>>,
    ex: E,
)
    requires
        needed_from(children, i, seen).dom().subset_of(blocks.dom()),
    ensures
        or_select(children, i, acc, blocks, ex) is Ok,
    decreases children, children.len() - i,
{
    if i < children.len() {
        let child = children[i as int];
        lemma_needed_head(children, i, seen, blocks);
        lemma_needed_suffices(child, seen, blocks, ex);
        if let Ok(selected) = select(child, blocks, ex) {
            let next = match selected {
                None => acc,
                Some(ids) => acc.union(ids),
            };
            lemma_needed_suffices_or(children, i + 1, next, needed(child, seen), blocks, ex);
        }
    }
}

/// Fetching the needed blocks is enough: evaluation over them always succeeds.
pub proof fn needed_blocks_suffice<E: Expand>(plan: Plan, blocks: Map<u64, Vec<u32>>, ex: E)
    requires
        needed(plan, Map::empty()).dom().subset_of(blocks.dom()),
    ensures
        select(plan, blocks, ex) is Ok,
{
    lemma_needed_suffices(plan, Map::empty(), blocks, ex);
}

/// A query that resolves to nothing, to everything or to single ids fetches no block.
pub proof fn settled_queries_fetch_nothing(plan: Plan)
    requires
        plan is All || plan is Nothing || plan is Doc,
    ensures
        needed(plan, Map::empty()) == Map::<u64, (u32, u64)>::empty(),
{
}

/// A gram that every id has costs nothing: no bytes are stored for it, and no query fetches any.
pub proof fn dense_grams_cost_nothing(ids: Seq<u32>, id_space: u32, value: TermValue)
    requires
        crate::posting_block::ids_within(ids, id_space as nat),
        ids.len() == id_space,
        posting_of(value.packed).1 == id_space,
        id_space > 1,
    ensures
        crate::posting_block::posting_block(ids, id_space).len() == 0,
        gram_plan(Some(value), id_space) == Ok::<Plan, IndexError>(Plan::All),
        needed(Plan::All, Map::empty()) == Map::<u64, (u32, u64)>::empty(),
{
    crate::posting_block::posting_block_length(ids, id_space);
}

proof fn lemma_insert_keeps_order(sorted: Seq<Plan>, plan: Plan)
    requires
        ordered_by_count(sorted),
    ensures
        ordered_by_count(insert_by_count(sorted, plan)),
        insert_by_count(sorted, plan).to_multiset() == sorted.to_multiset().insert(plan),
        insert_by_count(sorted, plan).len() == sorted.len() + 1,
        forall|k: int|
            0 <= k <= sorted.len() ==> plan_count(
                #[trigger] insert_by_count(sorted, plan)[k],
            ) <= plan_count(plan) || sorted.len() > 0 && plan_count(
                insert_by_count(sorted, plan)[k],
            ) <= plan_count(sorted.last()),
    decreases sorted.len(),
{
    broadcast use vstd::seq_lib::group_to_multiset_ensures;

    let out = insert_by_count(sorted, plan);
    if sorted.len() > 0 && plan_count(sorted.last()) > plan_count(plan) {
        let front = sorted.drop_last();
        let inner = insert_by_count(front, plan);
        lemma_insert_keeps_order(front, plan);
        assert(sorted =~= front.push(sorted.last()));
        assert(out.to_multiset() =~= sorted.to_multiset().insert(plan));
        assert forall|a: int, b: int| 0 <= a < b < out.len() implies plan_count(
            #[trigger] out[a],
        ) <= plan_count(#[trigger] out[b]) by {
            assert(out[a] == inner[a]);
            if b < inner.len() {
                assert(out[b] == inner[b]);
            } else {
                assert(plan_count(inner[a]) <= plan_count(plan) || front.len() > 0 && plan_count(
                    inner[a],
                ) <= plan_count(front.last()));
                if front.len() > 0 {
                    assert(plan_count(sorted[front.len() - 1]) <= plan_count(
                        sorted[sorted.len() - 1],
                    ));
                }
            }
        }
    } else {
        assert forall|a: int, b: int| 0 <= a < b < out.len() implies plan_count(
            #[trigger] out[a],
        ) <= plan_count(#[trigger] out[b]) by {
            if b == sorted.len() && a < sorted.len() - 1 {
                assert(plan_count(sorted[a]) <= plan_count(sorted[sorted.len() - 1]));
            }
        }
    }
}

/// No plan is rarer than one before it.
pub open spec fn ordered_by_count(plans: Seq<Plan>) -> bool {
    forall|a: int, b: int|
        0 <= a < b < plans.len() ==> plan_count(#[trigger] plans[a]) <= plan_count(
            #[trigger] plans[b],
        )
}

/// Where an AND has more grams than are worth fetching, those that stay are the rarest: the given
/// grams are ordered by their counts, and the first of them stay.
pub proof fn kept_grams_are_the_rarest(grams: Seq<Plan>)
    ensures
        ordered_by_count(sort_by_count(grams)),
        sort_by_count(grams).to_multiset() == grams.to_multiset(),
    decreases grams.len(),
{
    broadcast use vstd::seq_lib::group_to_multiset_ensures;

    if grams.len() > 0 {
        kept_grams_are_the_rarest(grams.drop_last());
        lemma_insert_keeps_order(sort_by_count(grams.drop_last()), grams.last());
        assert(grams =~= grams.drop_last().push(grams.last()));
        assert(sort_by_count(grams).to_multiset() =~= grams.to_multiset());
    }
}

/// Ids below `id_space`.
pub open spec fn below(id_space: u32) -> spec_fn(u32) -> bool {
    |id: u32| id < id_space
}

proof fn lemma_pruned_docs(
    children: Seq<Plan>,
    strategy: Strategy,
    accepts: spec_fn(u32) -> bool,
)
    requires
        all_docs_accepted(children, accepts),
    ensures
        docs_accepted(pruned(children, strategy), accepts),
{
    lemma_pruned(children, strategy);
    let plan = pruned(children, strategy);
    if plan is All {
    } else if children.contains(plan) {
        let k = choose|k: int| 0 <= k < children.len() && children[k] == plan;
        assert(docs_accepted(children[k], accepts));
    } else {
        let kept = choose|kept: Seq<Plan>|
            plan == Plan::And(kept) && #[trigger] drawn_from(kept, children);
        assert(all_docs_accepted(kept, accepts)) by {
            assert forall|i: int| 0 <= i < kept.len() implies docs_accepted(
                #[trigger] kept[i],
                accepts,
            ) by {
                let k = choose|k: int| 0 <= k < children.len() && children[k] == kept[i];
                assert(docs_accepted(children[k], accepts));
            }
        }
    }
}

proof fn lemma_docs_push(kept: Seq<Plan>, plan: Plan, accepts: spec_fn(u32) -> bool)
    requires
        all_docs_accepted(kept, accepts),
        docs_accepted(plan, accepts),
    ensures
        all_docs_accepted(kept.push(plan), accepts),
{
    let grown = kept.push(plan);
    assert forall|k: int| 0 <= k < grown.len() implies docs_accepted(#[trigger] grown[k], accepts) by {
        if k < kept.len() {
            assert(docs_accepted(kept[k], accepts));
        }
    }
}

/// Every single id that a query resolves to lies in the id space.
pub proof fn resolved_ids_in_space<L: TermLookup>(
    q: Query,
    id_space: u32,
    strategy: Strategy,
    terms: L,
)
    ensures
        resolution(q, id_space, strategy, terms) matches Ok(plan) ==> docs_accepted(
            plan,
            below(id_space),
        ),
    decreases q, 0nat,
{
    match q {
        Query::And(subs) => {
            lemma_and_docs(subs@, 0, Seq::empty(), id_space, strategy, terms);
        },
        Query::Or(subs) => {
            lemma_or_docs(subs@, 0, Seq::empty(), id_space, strategy, terms);
        },
        _ => {},
    }
}

proof fn lemma_and_docs<L: TermLookup>(
    subs: Seq<Query>,
    i: nat,
    kept: Seq<Plan>,
    id_space: u32,
    strategy: Strategy,
    terms: L,
)
    requires
        all_docs_accepted(kept, below(id_space)),
    ensures
        and_resolution(subs, i, kept, id_space, strategy, terms) matches Ok(plan) ==> docs_accepted(
            plan,
            below(id_space),
        ),
    decreases subs, subs.len() - i,
{
    if i >= subs.len() {
        lemma_pruned_docs(kept, strategy, below(id_space));
    } else {
        let sub = subs[i as int];
        resolved_ids_in_space(sub, id_space, strategy, terms);
        if let Ok(plan) = resolution(sub, id_space, strategy, terms) {
            if plan is All {
                lemma_and_docs(subs, i + 1, kept, id_space, strategy, terms);
            } else if !(plan is Nothing) {
                lemma_docs_push(kept, plan, below(id_space));
                lemma_and_docs(subs, i + 1, kept.push(plan), id_space, strategy, terms);
            }
        }
    }
}

proof fn lemma_or_docs<L: TermLookup>(
    subs: Seq<Query>,
    i: nat,
    kept: Seq<Plan>,
    id_space: u32,
    strategy: Strategy,
    terms: L,
)
    requires
        all_docs_accepted(kept, below(id_space)),
    ensures
        or_resolution(subs, i, kept, id_space, strategy, terms) matches Ok(plan) ==> docs_accepted(
            plan,
            below(id_space),
        ),
    decreases subs, subs.len() - i,
{
    if i >= subs.len() {
        if kept.len() == 1 {
            assert(docs_accepted(kept[0], below(id_space)));
        }
    } else {
        let sub = subs[i as int];
        resolved_ids_in_space(sub, id_space, strategy, terms);
        if let Ok(plan) = resolution(sub, id_space, strategy, terms) {
            if plan is Nothing {
                lemma_or_docs(subs, i + 1, kept, id_space, strategy, terms);
            } else if !(plan is All) {
                lemma_docs_push(kept, plan, below(id_space));
                lemma_or_docs(subs, i + 1, kept.push(plan), id_space, strategy, terms);
            }
        }
    }
}

/// A wider acceptance accepts what a narrower one does.
pub proof fn lemma_docs_accepted_mono(
    plan: Plan,
    narrow: spec_fn(u32) -> bool,
    wide: spec_fn(u32) -> bool,
)
    requires
        docs_accepted(plan, narrow),
        forall|id: u32| #[trigger] narrow(id) ==> wide(id),
    ensures
        docs_accepted(plan, wide),
    decreases plan,
{
    match plan {
        Plan::And(children) => {
            assert forall|i: int| 0 <= i < children.len() implies docs_accepted(
                #[trigger] children[i],
                wide,
            ) by {
                assert(docs_accepted(children[i], narrow));
                lemma_docs_accepted_mono(children[i], narrow, wide);
            }
        },
        Plan::Or(children) => {
            assert forall|i: int| 0 <= i < children.len() implies docs_accepted(
                #[trigger] children[i],
                wide,
            ) by {
                assert(docs_accepted(children[i], narrow));
                lemma_docs_accepted_mono(children[i], narrow, wide);
            }
        },
        Plan::Doc(id) => {
            assert(narrow(id));
        },
        _ => {},
    }
}

/// A selection holds an id.
pub open spec fn selects(selection: Option<Set<u32>>, id: u32) -> bool {
    selection matches Some(ids) ==> ids.contains(id)
}

/// What child `k` selects.
pub open spec fn child_selection<E: Expand>(
    children: Seq<Plan>,
    blocks: Map<u64, Vec<u32>>,
    ex: E,
    k: int,
) -> Option<Set<u32>> {
    select(children[k], blocks, ex)->Ok_0
}

/// Every child can be evaluated.
pub open spec fn all_select<E: Expand>(
    children: Seq<Plan>,
    blocks: Map<u64, Vec<u32>>,
    ex: E,
) -> bool {
    forall|k: int| 0 <= k < children.len() ==> select(#[trigger] children[k], blocks, ex) is Ok
}

proof fn lemma_and_select_exact<E: Expand>(
    children: Seq<Plan>,
    i: nat,
    acc: Option<Set<u32>>,
    blocks: Map<u64, Vec<u32>>,
    ex: E,
    id: u32,
)
    requires
        all_select(children, blocks, ex),
        i <= children.len(),
    ensures
        and_select(children, i, acc, blocks, ex) matches Ok(sel) && {
            &&& selects(sel, id) <==> selects(acc, id) && forall|k: int|
                i <= k < children.len() ==> selects(
                    #[trigger] child_selection(children, blocks, ex, k),
                    id,
                )
            &&& sel is None <==> acc is None && forall|k: int|
                i <= k < children.len() ==> (#[trigger] child_selection(children, blocks, ex, k))
                    is None
        },
    decreases children.len() - i,
{
    if i < children.len() {
        let own = child_selection(children, blocks, ex, i as int);
        assert(select(children[i as int], blocks, ex) is Ok);
        match own {
            None => {
                lemma_and_select_exact(children, i + 1, acc, blocks, ex, id);
            },
            Some(ids) => {
                if ids == Set::<u32>::empty() {
                    assert(!selects(child_selection(children, blocks, ex, i as int), id));
                } else {
                    let both = match acc {
                        None => ids,
                        Some(seen) => seen.intersect(ids),
                    };
                    lemma_and_select_exact(children, i + 1, Some(both), blocks, ex, id);
                }
            },
        }
    }
}

proof fn lemma_or_select_exact<E: Expand>(
    children: Seq<Plan>,
    i: nat,
    acc: Set<u32>,
    blocks: Map<u64, Vec<u32>>,
    ex: E,
    id: u32,
)
    requires
        all_select(children, blocks, ex),
        i <= children.len(),
    ensures
        or_select(children, i, acc, blocks, ex) matches Ok(sel) && {
            &&& selects(sel, id) <==> acc.contains(id) || exists|k: int|
                i <= k < children.len() && selects(
                    #[trigger] child_selection(children, blocks, ex, k),
                    id,
                )
            &&& sel is None <==> exists|k: int|
                i <= k < children.len() && (#[trigger] child_selection(children, blocks, ex, k))
                    is None
        },
    decreases children.len() - i,
{
    if i < children.len() {
        let own = child_selection(children, blocks, ex, i as int);
        assert(select(children[i as int], blocks, ex) is Ok);
        match own {
            None => {
                assert(selects(child_selection(children, blocks, ex, i as int), id));
            },
            Some(ids) => {
                lemma_or_select_exact(children, i + 1, acc.union(ids), blocks, ex, id);
            },
        }
    }
}

/// Selections mean what the query says: a conjunction selects the ids that all its parts select, an
/// alternative those that one of its parts selects, a gram the widened ranges of the ids that its
/// block lists, and a single id its own. Everything is selected where all parts of a conjunction, or
/// one alternative, select everything.
pub proof fn selections_are_exact<E: Expand>(
    children: Seq<Plan>,
    blocks: Map<u64, Vec<u32>>,
    ex: E,
    offset: u64,
    count: u32,
    len: u64,
    single: u32,
    id: u32,
)
    ensures
        all_select(children, blocks, ex) ==> (select(Plan::And(children), blocks, ex) matches Ok(sel)
            && (selects(sel, id) <==> forall|k: int|
            0 <= k < children.len() ==> selects(
                #[trigger] child_selection(children, blocks, ex, k),
                id,
            )) && (sel is None <==> forall|k: int|
            0 <= k < children.len() ==> (#[trigger] child_selection(children, blocks, ex, k))
                is None)),
        all_select(children, blocks, ex) ==> (select(Plan::Or(children), blocks, ex) matches Ok(sel)
            && (selects(sel, id) <==> exists|k: int|
            0 <= k < children.len() && selects(
                #[trigger] child_selection(children, blocks, ex, k),
                id,
            )) && (sel is None <==> exists|k: int|
            0 <= k < children.len() && (#[trigger] child_selection(children, blocks, ex, k)) is None)),
        blocks.contains_key(offset) ==> (select(
            Plan::Gram { offset, count, len },
            blocks,
            ex,
        ) matches Ok(Some(ids)) && (ids.contains(id) <==> exists|k: int|
            0 <= k < blocks[offset]@.len() && ex.range(#[trigger] blocks[offset]@[k]).0 <= id
                <= ex.range(blocks[offset]@[k]).1)),
        select(Plan::Doc(single), blocks, ex) matches Ok(Some(ids)) && (ids.contains(id)
            <==> ex.range(single).0 <= id <= ex.range(single).1),
        select(Plan::All, blocks, ex) == Ok::<Option<Set<u32>>, IndexError>(None),
        select(Plan::Nothing, blocks, ex) matches Ok(Some(ids)) && !ids.contains(id),
{
    if all_select(children, blocks, ex) {
        lemma_and_select_exact(children, 0, None, blocks, ex, id);
        lemma_or_select_exact(children, 0, Set::empty(), blocks, ex, id);
    }
    let one = seq![single];
    assert(one[0] == single);
    if widened(one, ex).contains(id) {
        let k = choose|k: int|
            0 <= k < one.len() && ex.range(#[trigger] one[k]).0 <= id <= ex.range(one[k]).1;
        assert(one[k] == single);
    }
    if ex.range(single).0 <= id <= ex.range(single).1 {
        assert(ex.range(one[0]).0 <= id);
    }
}

/// What part `k` of a query resolves to.
pub open spec fn part_resolution<L: TermLookup>(
    subs: Seq<Query>,
    id_space: u32,
    strategy: Strategy,
    terms: L,
    k: int,
) -> Plan {
    resolution(subs[k], id_space, strategy, terms)->Ok_0
}

/// Every part of a query resolves.
pub open spec fn all_resolve<L: TermLookup>(
    subs: Seq<Query>,
    id_space: u32,
    strategy: Strategy,
    terms: L,
) -> bool {
    forall|k: int|
        0 <= k < subs.len() ==> resolution(#[trigger] subs[k], id_space, strategy, terms) is Ok
}

proof fn lemma_pruned_constrains(kept: Seq<Plan>, strategy: Strategy)
    requires
        kept.len() > 0,
        forall|k: int| 0 <= k < kept.len() ==> !((#[trigger] kept[k]) is All) && !(kept[k] is Nothing),
    ensures
        !(pruned(kept, strategy) is All),
        !(pruned(kept, strategy) is Nothing),
{
    lemma_pruned(kept, strategy);
    let plan = pruned(kept, strategy);
    let grams = kept.filter(|p: Plan| is_gram(p));
    let others = kept.filter(|p: Plan| !is_gram(p));
    lemma_split_counts(kept);
    lemma_sort_by_count_len(grams);
    if exists|i: int| 0 <= i < kept.len() && kept[i] is Doc {
        let i = choose|i: int| 0 <= i < kept.len() && kept[i] is Doc;
        lemma_filter_keeps(kept, |p: Plan| !is_gram(p), i);
    }
    lemma_filter_drawn(kept, |p: Plan| is_gram(p));
    lemma_filter_drawn(kept, |p: Plan| !is_gram(p));
    if kept.contains(plan) {
        let k = choose|k: int| 0 <= k < kept.len() && kept[k] == plan;
    }
}

proof fn lemma_filter_keeps(s: Seq<Plan>, pred: spec_fn(Plan) -> bool, i: int)
    requires
        0 <= i < s.len(),
        pred(s[i]),
    ensures
        s.filter(pred).contains(s[i]),
    decreases s.len(),
{
    reveal(Seq::filter);
    let front = s.drop_last();
    let out = s.filter(pred);
    if i < s.len() - 1 {
        lemma_filter_keeps(front, pred, i);
        let kept = front.filter(pred);
        let k = choose|k: int| 0 <= k < kept.len() && kept[k] == front[i];
        assert(out[k] == s[i]);
    } else {
        assert(out[out.len() - 1] == s[i]);
    }
}

proof fn lemma_filter_is(s: Seq<Plan>, pred: spec_fn(Plan) -> bool)
    ensures
        forall|k: int| 0 <= k < s.filter(pred).len() ==> pred(#[trigger] s.filter(pred)[k]),
    decreases s.len(),
{
    reveal(Seq::filter);
    if s.len() > 0 {
        lemma_filter_is(s.drop_last(), pred);
    }
}

proof fn lemma_split_counts(s: Seq<Plan>)
    ensures
        s.filter(|p: Plan| is_gram(p)).len() + s.filter(|p: Plan| !is_gram(p)).len() == s.len(),
    decreases s.len(),
{
    reveal(Seq::filter);
    if s.len() > 0 {
        lemma_split_counts(s.drop_last());
    }
}

proof fn lemma_and_resolution_meaning<L: TermLookup>(
    subs: Seq<Query>,
    i: nat,
    kept: Seq<Plan>,
    id_space: u32,
    strategy: Strategy,
    terms: L,
)
    requires
        all_resolve(subs, id_space, strategy, terms),
        i <= subs.len(),
        forall|k: int| 0 <= k < kept.len() ==> !((#[trigger] kept[k]) is All) && !(kept[k] is Nothing),
    ensures
        and_resolution(subs, i, kept, id_space, strategy, terms) matches Ok(plan) && {
            &&& plan is Nothing <==> exists|k: int|
                i <= k < subs.len() && (#[trigger] part_resolution(
                    subs,
                    id_space,
                    strategy,
                    terms,
                    k,
                )) is Nothing
            &&& plan is All <==> kept.len() == 0 && forall|k: int|
                i <= k < subs.len() ==> (#[trigger] part_resolution(
                    subs,
                    id_space,
                    strategy,
                    terms,
                    k,
                )) is All
        },
    decreases subs.len() - i,
{
    if i >= subs.len() {
        if kept.len() > 0 {
            lemma_pruned_constrains(kept, strategy);
        } else {
            assert(kept.filter(|p: Plan| is_gram(p)).len() == 0) by {
                reveal(Seq::filter);
            }
            assert(kept.filter(|p: Plan| !is_gram(p)).len() == 0) by {
                reveal(Seq::filter);
            }
        }
    } else {
        assert(resolution(subs[i as int], id_space, strategy, terms) is Ok);
        let own = part_resolution(subs, id_space, strategy, terms, i as int);
        match own {
            Plan::Nothing => {},
            Plan::All => {
                lemma_and_resolution_meaning(subs, i + 1, kept, id_space, strategy, terms);
            },
            _ => {
                let grown = kept.push(own);
                lemma_and_resolution_meaning(subs, i + 1, grown, id_space, strategy, terms);
            },
        }
    }
}

proof fn lemma_or_resolution_meaning<L: TermLookup>(
    subs: Seq<Query>,
    i: nat,
    kept: Seq<Plan>,
    id_space: u32,
    strategy: Strategy,
    terms: L,
)
    requires
        all_resolve(subs, id_space, strategy, terms),
        i <= subs.len(),
        forall|k: int| 0 <= k < kept.len() ==> !((#[trigger] kept[k]) is All) && !(kept[k] is Nothing),
    ensures
        or_resolution(subs, i, kept, id_space, strategy, terms) matches Ok(plan) && {
            &&& plan is All <==> exists|k: int|
                i <= k < subs.len() && (#[trigger] part_resolution(
                    subs,
                    id_space,
                    strategy,
                    terms,
                    k,
                )) is All
            &&& plan is Nothing <==> kept.len() == 0 && forall|k: int|
                i <= k < subs.len() ==> (#[trigger] part_resolution(
                    subs,
                    id_space,
                    strategy,
                    terms,
                    k,
                )) is Nothing
        },
    decreases subs.len() - i,
{
    if i < subs.len() {
        assert(resolution(subs[i as int], id_space, strategy, terms) is Ok);
        let own = part_resolution(subs, id_space, strategy, terms, i as int);
        match own {
            Plan::All => {},
            Plan::Nothing => {
                lemma_or_resolution_meaning(subs, i + 1, kept, id_space, strategy, terms);
            },
            _ => {
                let grown = kept.push(own);
                lemma_or_resolution_meaning(subs, i + 1, grown, id_space, strategy, terms);
            },
        }
    } else if kept.len() == 1 {
        assert(!(kept[0] is All) && !(kept[0] is Nothing));
    }
}

/// Resolving a query narrows as far as its grams do: a conjunction is empty if and only if one of its
/// parts is, and asks for nothing if and only if none of them asks for anything; an alternative the
/// other way round.
pub proof fn resolved_queries_narrow<L: TermLookup>(
    subs: Vec<Query>,
    id_space: u32,
    strategy: Strategy,
    terms: L,
)
    requires
        all_resolve(subs@, id_space, strategy, terms),
    ensures
        resolution(Query::And(subs), id_space, strategy, terms) matches Ok(plan) && {
            &&& plan is Nothing <==> exists|k: int|
                0 <= k < subs@.len() && (#[trigger] part_resolution(
                    subs@,
                    id_space,
                    strategy,
                    terms,
                    k,
                )) is Nothing
            &&& plan is All <==> forall|k: int|
                0 <= k < subs@.len() ==> (#[trigger] part_resolution(
                    subs@,
                    id_space,
                    strategy,
                    terms,
                    k,
                )) is All
        },
        resolution(Query::Or(subs), id_space, strategy, terms) matches Ok(plan) && {
            &&& plan is All <==> exists|k: int|
                0 <= k < subs@.len() && (#[trigger] part_resolution(
                    subs@,
                    id_space,
                    strategy,
                    terms,
                    k,
                )) is All
            &&& plan is Nothing <==> forall|k: int|
                0 <= k < subs@.len() ==> (#[trigger] part_resolution(
                    subs@,
                    id_space,
                    strategy,
                    terms,
                    k,
                )) is Nothing
        },
{
    lemma_and_resolution_meaning(subs@, 0, Seq::empty(), id_space, strategy, terms);
    lemma_or_resolution_meaning(subs@, 0, Seq::empty(), id_space, strategy, terms);
}

/// A gram that the dictionary lacks empties its query; one with a single id is that id; one that every
/// id has asks for nothing; any other asks for the ids that its block lists.
pub proof fn grams_resolve_to_their_postings(
    value: TermValue,
    offset: u64,
    count: nat,
    id_space: u32,
)
    requires
        offset < OFFSET_LIMIT,
        count <= MAX_POSTING_COUNT,
        value.packed == offset + count * OFFSET_LIMIT,
        id_space > 1,
    ensures
        gram_plan(None, id_space) == Ok::<Plan, IndexError>(Plan::Nothing),
        count == 1 && offset < id_space ==> gram_plan(Some(value), id_space) == Ok::<
            Plan,
            IndexError,
        >(Plan::Doc(offset as u32)),
        count == 1 && offset >= id_space ==> gram_plan(Some(value), id_space) is Err,
        count >= id_space ==> gram_plan(Some(value), id_space) == Ok::<Plan, IndexError>(Plan::All),
        count != 1 && count < id_space ==> (gram_plan(Some(value), id_space) matches Ok(Plan::Gram {
            offset: at,
            count: ids,
            len,
        }) && at == offset && ids == count && (value.len matches Some(given) ==> len == given)),
{
    posting_round_trip(offset, count);
}

/// The constraints of a plan that is a conjunction, or the plan alone.
pub open spec fn constraints(plan: Plan) -> Seq<Plan> {
    match plan {
        Plan::And(children) => children,
        _ => seq![plan],
    }
}

/// Beside single ids, a conjunction keeps everything that is no gram. Otherwise it keeps that too, and
/// of the grams as many as are worth fetching, none of which is more frequent than one that it drops.
pub proof fn conjunctions_keep_the_rarest_grams(children: Seq<Plan>, strategy: Strategy, i: int)
    requires
        children.len() > 1,
        forall|k: int| 0 <= k < children.len() ==> !((#[trigger] children[k]) is And),
        0 <= i < children.len(),
    ensures
        ({
            let kept = constraints(pruned(children, strategy));
            let single = exists|k: int| 0 <= k < children.len() && (#[trigger] children[k]) is Doc;
            let limit: nat = match strategy {
                Strategy::Trigram => 64,
                Strategy::Sparse => 8,
            };
            let given = children.filter(|p: Plan| p is Gram).len();
            let held = kept.filter(|p: Plan| p is Gram).len();
            &&& !(children[i] is Gram) ==> kept.contains(children[i])
            &&& forall|k: int| 0 <= k < kept.len() ==> children.contains(#[trigger] kept[k])
            &&& held == if single {
                0
            } else if given > limit {
                limit
            } else {
                given
            }
            &&& children[i] is Gram && !single && !kept.contains(children[i]) ==> forall|k: int|
                0 <= k < kept.len() && (#[trigger] kept[k]) is Gram ==> plan_count(kept[k])
                    <= plan_count(children[i])
        }),
{
    let plan = pruned(children, strategy);
    let grams = children.filter(|p: Plan| is_gram(p));
    let others = children.filter(|p: Plan| !is_gram(p));
    let limit = gram_limit(strategy);
    lemma_split_counts(children);
    lemma_filter_drawn(children, |p: Plan| is_gram(p));
    lemma_filter_drawn(children, |p: Plan| !is_gram(p));
    lemma_filter_is(children, |p: Plan| is_gram(p));
    lemma_filter_is(children, |p: Plan| !is_gram(p));
    assert(children.filter(|p: Plan| p is Gram) == grams) by {
        assert((|p: Plan| p is Gram) =~= (|p: Plan| is_gram(p)));
    }
    lemma_sort_by_count_len(grams);
    lemma_sort_drawn(grams);
    kept_grams_are_the_rarest(grams);
    let sorted = sort_by_count(grams);
    let front = if grams.len() > limit {
        sorted.take(limit as int)
    } else {
        grams
    };
    let single = exists|k: int| 0 <= k < children.len() && (#[trigger] children[k]) is Doc;
    assert(single == (exists|k: int| 0 <= k < children.len() && children[k] is Doc));
    if single {
        let k = choose|k: int| 0 <= k < children.len() && (#[trigger] children[k]) is Doc;
        lemma_filter_keeps(children, |p: Plan| !is_gram(p), k);
    }
    let list = if single {
        others
    } else {
        front + others
    };
    assert forall|k: int| 0 <= k < front.len() implies (#[trigger] front[k]) is Gram
        && children.contains(front[k]) by {
        if grams.len() > limit {
            assert(sorted[k] == front[k]);
            assert(grams.contains(sorted[k]));
            let g = choose|g: int| 0 <= g < grams.len() && grams[g] == sorted[k];
            assert(is_gram(grams[g]));
            assert(children.contains(grams[g]));
        } else {
            assert(is_gram(grams[k]));
            assert(children.contains(grams[k]));
        }
    }
    assert forall|k: int| 0 <= k < list.len() implies children.contains(#[trigger] list[k]) by {
        if single {
            assert(children.contains(others[k]));
        } else if k < front.len() {
            assert(list[k] == front[k]);
        } else {
            assert(children.contains(others[k - front.len()]));
            assert(list[k] == others[k - front.len()]);
        }
    }
    let kept = constraints(plan);
    assert(kept =~= list) by {
        if list.len() == 1 {
            assert(children.contains(list[0]));
            let k = choose|k: int| 0 <= k < children.len() && children[k] == list[0];
            assert(!(children[k] is And));
            assert(plan == list[0]);
        }
    }
    lemma_filter_front(front, others);
    lemma_filter_front(Seq::empty(), others);
    assert(Seq::<Plan>::empty() + others =~= others);
    if !(children[i] is Gram) {
        lemma_filter_keeps(children, |p: Plan| !is_gram(p), i);
        let k = choose|k: int| 0 <= k < others.len() && others[k] == children[i];
        if single {
            assert(kept[k] == children[i]);
        } else {
            assert(kept[front.len() + k] == children[i]);
        }
    } else if !single && !kept.contains(children[i]) {
        lemma_filter_keeps(children, |p: Plan| is_gram(p), i);
        if grams.len() <= limit {
            let k = choose|k: int| 0 <= k < grams.len() && grams[k] == children[i];
            assert(kept[k] == children[i]);
        } else {
            broadcast use vstd::seq_lib::group_to_multiset_ensures;

            assert(grams.to_multiset().count(children[i]) > 0);
            assert(sorted.to_multiset().count(children[i]) > 0);
            assert(sorted.contains(children[i]));
            let g = choose|g: int| 0 <= g < sorted.len() && sorted[g] == children[i];
            if g < limit {
                assert(kept[g] == children[i]);
            }
            assert forall|k: int| 0 <= k < kept.len() && (#[trigger] kept[k]) is Gram implies plan_count(
                kept[k],
            ) <= plan_count(children[i]) by {
                if k < front.len() {
                    assert(kept[k] == sorted[k]);
                } else {
                    assert(kept[k] == others[k - front.len()]);
                    assert(!is_gram(others[k - front.len()]));
                }
            }
        }
    }
}

/// The grams among grams that others follow.
proof fn lemma_filter_front(front: Seq<Plan>, others: Seq<Plan>)
    requires
        forall|k: int| 0 <= k < front.len() ==> (#[trigger] front[k]) is Gram,
        forall|k: int| 0 <= k < others.len() ==> !is_gram(#[trigger] others[k]),
    ensures
        (front + others).filter(|p: Plan| p is Gram).len() == front.len(),
    decreases front.len() + others.len(),
{
    reveal(Seq::filter);
    let all = front + others;
    if others.len() > 0 {
        lemma_filter_front(front, others.drop_last());
        assert(all.drop_last() =~= front + others.drop_last());
        assert(all.last() == others.last());
    } else if front.len() > 0 {
        lemma_filter_front(front.drop_last(), others);
        assert(all.drop_last() =~= front.drop_last() + others);
        assert(all.last() == front.last());
    }
}

} // verus!
