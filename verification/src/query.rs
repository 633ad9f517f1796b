//! Gram queries: boolean combinations of byte grams that every match must satisfy.

use vstd::prelude::*;

use crate::text::bytes_eq;

verus! {

/// How grams are cut from text.
#[derive(Debug, Clone, Copy, PartialEq, Eq, Structural)]
pub enum Strategy {
    Trigram,
    Sparse,
}

#[derive(Debug, PartialEq, Eq)]
pub enum Query {
    All,
    And(Vec<Query>),
    Or(Vec<Query>),
    Gram(Vec<u8>),
}

/// The model of `Query`.
pub enum QueryTree {
    All,
    And(Seq<QueryTree>),
    Or(Seq<QueryTree>),
    Gram(Seq<u8>),
}

pub open spec fn trees(subs: Seq<Query>) -> Seq<QueryTree>
    decreases subs,
{
    Seq::new(
        subs.len(),
        |i: int|
            if 0 <= i < subs.len() {
                subs[i].tree()
            } else {
                QueryTree::All
            },
    )
}

impl Query {
    pub open spec fn tree(self) -> QueryTree
        decreases self,
    {
        match self {
            Query::All => QueryTree::All,
            Query::And(subs) => QueryTree::And(trees(subs@)),
            Query::Or(subs) => QueryTree::Or(trees(subs@)),
            Query::Gram(gram) => QueryTree::Gram(gram@),
        }
    }

    /// Whether two queries are the same, term for term.
    pub fn same(&self, other: &Query) -> (same: bool)
        ensures
            same == (self.tree() == other.tree()),
        decreases self,
    {
        match (self, other) {
            (Query::All, Query::All) => true,
            (Query::Gram(a), Query::Gram(b)) => bytes_eq(a.as_slice(), b.as_slice()),
            (Query::And(a), Query::And(b)) => {
                let n: usize = a.len();
                if n != b.len() {
                    assert(trees(a@).len() != trees(b@).len());
                    return false;
                }
                let mut i: usize = 0;
                while i < n
                    invariant
                        i <= n,
                        n == a.len() == b.len(),
                        self == Query::And(*a),
                        other == Query::And(*b),
                        decreases_to!(self => a@),
                        forall|k: int| 0 <= k < i ==> (#[trigger] a@[k]).tree() == b@[k].tree(),
                    decreases n - i,
                {
                    if !a[i].same(&b[i]) {
                        assert(trees(a@)[i as int] != trees(b@)[i as int]);
                        return false;
                    }
                    i = i + 1;
                }
                assert(trees(a@) =~= trees(b@));
                true
            },
            (Query::Or(a), Query::Or(b)) => {
                let n: usize = a.len();
                if n != b.len() {
                    assert(trees(a@).len() != trees(b@).len());
                    return false;
                }
                let mut i: usize = 0;
                while i < n
                    invariant
                        i <= n,
                        n == a.len() == b.len(),
                        self == Query::Or(*a),
                        other == Query::Or(*b),
                        decreases_to!(self => a@),
                        forall|k: int| 0 <= k < i ==> (#[trigger] a@[k]).tree() == b@[k].tree(),
                    decreases n - i,
                {
                    if !a[i].same(&b[i]) {
                        assert(trees(a@)[i as int] != trees(b@)[i as int]);
                        return false;
                    }
                    i = i + 1;
                }
                assert(trees(a@) =~= trees(b@));
                true
            },
            _ => false,
        }
    }
}

impl Clone for Query {
    fn clone(&self) -> (copy: Query)
        ensures
            copy.tree() == self.tree(),
        decreases self,
    {
        match self {
            Query::All => Query::All,
            Query::And(subs) => {
                let mut copies: Vec<Query> = Vec::new();
                let mut i: usize = 0;
                while i < subs.len()
                    invariant
                        i <= subs.len(),
                        copies.len() == i,
                        forall|k: int|
                            0 <= k < i ==> (#[trigger] copies@[k]).tree() == subs@[k].tree(),
                        decreases_to!(self => subs@),
                    decreases subs.len() - i,
                {
                    copies.push(subs[i].clone());
                    i = i + 1;
                }
                assert(trees(copies@) =~= trees(subs@));
                Query::And(copies)
            },
            Query::Or(subs) => {
                let mut copies: Vec<Query> = Vec::new();
                let mut i: usize = 0;
                while i < subs.len()
                    invariant
                        i <= subs.len(),
                        copies.len() == i,
                        forall|k: int|
                            0 <= k < i ==> (#[trigger] copies@[k]).tree() == subs@[k].tree(),
                        decreases_to!(self => subs@),
                    decreases subs.len() - i,
                {
                    copies.push(subs[i].clone());
                    i = i + 1;
                }
                assert(trees(copies@) =~= trees(subs@));
                Query::Or(copies)
            },
            Query::Gram(gram) => Query::Gram(vstd::slice::slice_to_vec(gram.as_slice())),
        }
    }
}

/// The query holds of an item whose grams are those that `has` accepts.
pub open spec fn holds(q: Query, has: spec_fn(Seq<u8>) -> bool) -> bool
    decreases q, 0nat,
{
    match q {
        Query::All => true,
        Query::And(subs) => all_hold(subs@, has),
        Query::Or(subs) => any_holds(subs@, has),
        Query::Gram(gram) => has(gram@),
    }
}

pub open spec fn all_hold(subs: Seq<Query>, has: spec_fn(Seq<u8>) -> bool) -> bool
    decreases subs, 1nat,
{
    forall|i: int| 0 <= i < subs.len() ==> holds(#[trigger] subs[i], has)
}

pub open spec fn any_holds(subs: Seq<Query>, has: spec_fn(Seq<u8>) -> bool) -> bool
    decreases subs, 1nat,
{
    exists|i: int| 0 <= i < subs.len() && holds(#[trigger] subs[i], has)
}

/// What a query's model asks of an item whose grams are those that `has` accepts.
pub open spec fn tree_holds(tree: QueryTree, has: spec_fn(Seq<u8>) -> bool) -> bool
    decreases tree, 0nat,
{
    match tree {
        QueryTree::All => true,
        QueryTree::And(subs) => all_trees_hold(subs, has),
        QueryTree::Or(subs) => any_tree_holds(subs, has),
        QueryTree::Gram(gram) => has(gram),
    }
}

pub open spec fn all_trees_hold(subs: Seq<QueryTree>, has: spec_fn(Seq<u8>) -> bool) -> bool
    decreases subs, 1nat,
{
    forall|i: int| 0 <= i < subs.len() ==> tree_holds(#[trigger] subs[i], has)
}

pub open spec fn any_tree_holds(subs: Seq<QueryTree>, has: spec_fn(Seq<u8>) -> bool) -> bool
    decreases subs, 1nat,
{
    exists|i: int| 0 <= i < subs.len() && tree_holds(#[trigger] subs[i], has)
}

/// A query and its model hold of the same items.
pub proof fn models_hold_alike(q: Query, has: spec_fn(Seq<u8>) -> bool)
    ensures
        holds(q, has) == tree_holds(q.tree(), has),
    decreases q,
{
    match q {
        Query::And(subs) => {
            let list = trees(subs@);
            assert forall|i: int| 0 <= i < subs@.len() implies holds(#[trigger] subs@[i], has)
                == tree_holds(list[i], has) by {
                assert(decreases_to!(q => subs@));
                assert(decreases_to!(subs@ => subs@[i]));
                models_hold_alike(subs@[i], has);
            }
            if all_hold(subs@, has) {
                assert forall|i: int| 0 <= i < list.len() implies tree_holds(
                    #[trigger] list[i],
                    has,
                ) by {
                    assert(holds(subs@[i], has));
                }
            }
            if all_trees_hold(list, has) {
                assert forall|i: int| 0 <= i < subs@.len() implies holds(
                    #[trigger] subs@[i],
                    has,
                ) by {
                    assert(tree_holds(list[i], has));
                }
            }
        },
        Query::Or(subs) => {
            let list = trees(subs@);
            assert forall|i: int| 0 <= i < subs@.len() implies holds(#[trigger] subs@[i], has)
                == tree_holds(list[i], has) by {
                assert(decreases_to!(q => subs@));
                assert(decreases_to!(subs@ => subs@[i]));
                models_hold_alike(subs@[i], has);
            }
            if any_holds(subs@, has) {
                let i = choose|i: int| 0 <= i < subs@.len() && holds(#[trigger] subs@[i], has);
                assert(tree_holds(list[i], has));
            }
            if any_tree_holds(list, has) {
                let i = choose|i: int| 0 <= i < list.len() && tree_holds(#[trigger] list[i], has);
                assert(holds(subs@[i], has));
            }
        },
        _ => {},
    }
}

} // verus!
