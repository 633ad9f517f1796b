//! What an update leaves of an index: which sources the segments of the new root hold, and that a
//! second update finds nothing to do.

use vstd::prelude::*;

use crate::format::DeadSet;
use crate::format::SegmentTables;
use crate::update::ListedObject;
use crate::update::SegmentAction;
use crate::update::UpdateFlags;
use crate::update::UpdatePlan;

verus! {

/// No key is held twice.
pub open spec fn keys_once(tables: Seq<SegmentTables>, dead: Seq<DeadSet>) -> bool {
    forall|s: int, i: int, t: int, j: int|
        #[trigger] crate::update::not_dead(tables, dead, s, i) && #[trigger] crate::update::not_dead(
            tables,
            dead,
            t,
            j,
        ) && tables[s].sources@[i].key@ == tables[t].sources@[j].key@ ==> s == t && i == j
}

/// The segments hold the sources of others, each once: `from` says where each comes from.
pub open spec fn rearranged(
    after: Seq<SegmentTables>,
    dead_after: Seq<DeadSet>,
    tables: Seq<SegmentTables>,
    dead: Seq<DeadSet>,
    from: spec_fn(int, int) -> (int, int),
) -> bool {
    &&& forall|s: int, i: int| #[trigger]
        crate::update::not_dead(after, dead_after, s, i) ==> crate::update::not_dead(
            tables,
            dead,
            from(s, i).0,
            from(s, i).1,
        ) && crate::update::same_source(
            after[s].sources@[i],
            tables[from(s, i).0].sources@[from(s, i).1],
        )
    &&& forall|s: int, i: int, t: int, j: int|
        #[trigger] crate::update::not_dead(after, dead_after, s, i)
            && #[trigger] crate::update::not_dead(after, dead_after, t, j) && from(s, i) == from(
            t,
            j,
        ) ==> s == t && i == j
    &&& forall|t: int, j: int| #[trigger]
        crate::update::not_dead(tables, dead, t, j) ==> exists|s: int, i: int| #[trigger]
            crate::update::not_dead(after, dead_after, s, i) && from(s, i) == (t, j)
}

proof fn lemma_rearranged_once(
    after: Seq<SegmentTables>,
    dead_after: Seq<DeadSet>,
    tables: Seq<SegmentTables>,
    dead: Seq<DeadSet>,
    from: spec_fn(int, int) -> (int, int),
)
    requires
        rearranged(after, dead_after, tables, dead, from),
        keys_once(tables, dead),
    ensures
        keys_once(after, dead_after),
{
    assert forall|s: int, i: int, t: int, j: int|
        #[trigger] crate::update::not_dead(after, dead_after, s, i)
            && #[trigger] crate::update::not_dead(after, dead_after, t, j)
            && after[s].sources@[i].key@ == after[t].sources@[j].key@ implies s == t && i == j by {
        assert(crate::update::not_dead(tables, dead, from(s, i).0, from(s, i).1));
        assert(crate::update::not_dead(tables, dead, from(t, j).0, from(t, j).1));
    }
}

/// The segment was written anew from the sources of others that are not dead, in the given order.
pub open spec fn rewritten(
    new: SegmentTables,
    olds: Seq<SegmentTables>,
    dead: Seq<DeadSet>,
    order: Seq<(usize, u32)>,
) -> bool {
    &&& crate::compact::merge_order_of(order, olds, dead)
    &&& new.sources@.len() == order.len()
    &&& forall|k: int|
        0 <= k < order.len() ==> crate::update::same_source(
            #[trigger] new.sources@[k],
            olds[order[k].0 as int].sources@[order[k].1 as int],
        )
}

/// What a merge plans, once it is placed, is written anew from what it merges.
pub proof fn merges_rewrite(
    placed: SegmentTables,
    plan: crate::compact::MergePlan,
    olds: Seq<SegmentTables>,
    dead: Seq<DeadSet>,
)
    requires
        crate::compact::merge_order_of(plan.order@, olds, dead),
        crate::compact::merged_tables(
            plan.tables,
            plan.order@,
            olds,
            dead,
            plan.order@.len() as int,
        ),
        placed.sources@ == plan.tables.sources@,
    ensures
        rewritten(placed, olds, dead, plan.order@),
{
}

/// What becomes of the segments of the old root: those that are dropped are gone, those that are
/// kept or recorded stay with their dead sets, and the others are written anew.
pub open spec fn carried_over(
    after: Seq<SegmentTables>,
    dead_after: Seq<DeadSet>,
    tables: Seq<SegmentTables>,
    plan: UpdatePlan,
    kept: Seq<int>,
    orders: Seq<Seq<(usize, u32)>>,
) -> bool {
    &&& after.len() == kept.len()
    &&& dead_after.len() == kept.len()
    &&& orders.len() == kept.len()
    &&& forall|k: int|
        0 <= k < kept.len() ==> 0 <= #[trigger] kept[k] < tables.len() && match plan.actions@[kept[k]] {
            SegmentAction::Drop => false,
            SegmentAction::Repack => {
                &&& dead_after[k].sources@.len() == 0
                &&& rewritten(
                    after[k],
                    seq![tables[kept[k]]],
                    seq![plan.dead@[kept[k]]],
                    orders[k],
                )
            },
            _ => {
                &&& after[k] == tables[kept[k]]
                &&& dead_after[k].sources@ == plan.dead@[kept[k]].sources@
                &&& dead_after[k].documents@ == plan.dead@[kept[k]].documents@
            },
        }
    &&& forall|a: int, b: int| 0 <= a < b < kept.len() ==> #[trigger] kept[a] != #[trigger] kept[b]
    &&& forall|s: int|
        0 <= s < tables.len() && !(plan.actions@[s] is Drop) ==> exists|k: int|
            0 <= k < kept.len() && #[trigger] kept[k] == s
}

/// Where a source of a segment that was carried over comes from.
pub open spec fn carried_from(
    plan: UpdatePlan,
    kept: Seq<int>,
    orders: Seq<Seq<(usize, u32)>>,
) -> spec_fn(int, int) -> (int, int) {
    |k: int, i: int|
        if plan.actions@[kept[k]] is Repack {
            (kept[k], orders[k][i].1 as int)
        } else {
            (kept[k], i)
        }
}

/// Ids that ascend below `n` and are `n` are all ids below `n`.
proof fn lemma_all_ids(ids: Seq<u32>, n: int, i: int)
    requires
        crate::ids::ascending(ids),
        ids.len() == n,
        forall|k: int| 0 <= k < n ==> #[trigger] ids[k] < n,
        0 <= i < n,
    ensures
        ids[i] == i,
    decreases n - i,
{
    crate::ids::lemma_ascending_floor(ids, i);
    if i < n - 1 {
        lemma_all_ids(ids, n, i + 1);
        assert(ids[i] < ids[i + 1]);
    }
}

/// The dead sets of a plan are dead sets of the segments.
pub open spec fn plan_fits(tables: Seq<SegmentTables>, dead: Seq<DeadSet>, plan: UpdatePlan) -> bool {
    &&& crate::update::segments_valid(tables, dead)
    &&& tables.len() <= usize::MAX
    &&& plan.dead@.len() == tables.len()
    &&& plan.actions@.len() == tables.len()
    &&& forall|s: int|
        0 <= s < tables.len() ==> crate::update::grown_dead(
            #[trigger] plan.dead@[s],
            dead[s],
            tables[s],
            plan.gone@,
            s as usize,
        )
}

/// A segment that is dropped has no source left.
proof fn lemma_dropped_is_dead(
    listing: Seq<ListedObject>,
    tables: Seq<SegmentTables>,
    dead: Seq<DeadSet>,
    plan: UpdatePlan,
    s: int,
    i: int,
)
    requires
        plan_fits(tables, dead, plan),
        crate::update::lists_removals(plan.gone@, listing, tables, dead),
        crate::update::not_dead(tables, plan.dead@, s, i),
    ensures
        plan.dead@[s].sources@.len() != tables[s].sources@.len(),
{
    let grown = plan.dead@[s];
    let n = tables[s].sources@.len() as int;
    assert(crate::update::grown_dead(grown, dead[s], tables[s], plan.gone@, s as usize));
    assert(crate::format::table_error(tables[s]) is None);
    crate::format::lemma_dead_bounds(dead[s], tables[s]);
    assert(tables[s].sources@.len() <= u32::MAX);
    if grown.sources@.len() == n {
        assert forall|k: int| 0 <= k < n implies #[trigger] grown.sources@[k] < n by {
            let id = grown.sources@[k];
            assert(grown.sources@.contains(id));
            if plan.gone@.contains((s as usize, id)) {
                let a = choose|a: int| 0 <= a < plan.gone@.len() && plan.gone@[a] == (s as usize, id);
                assert(crate::update::is_live(
                    tables,
                    dead,
                    plan.gone@[a].0 as int,
                    plan.gone@[a].1 as int,
                ));
            }
        }
        lemma_all_ids(grown.sources@, n, i);
        assert(grown.sources@.contains(i as u32));
    }
}

/// The sources of the segments that are carried over are those that the plan leaves.
proof fn lemma_carried_rearranged(
    listing: Seq<ListedObject>,
    after: Seq<SegmentTables>,
    dead_after: Seq<DeadSet>,
    tables: Seq<SegmentTables>,
    dead: Seq<DeadSet>,
    doc_counts: Seq<u32>,
    plan: UpdatePlan,
    purge: bool,
    kept: Seq<int>,
    orders: Seq<Seq<(usize, u32)>>,
)
    requires
        plan_fits(tables, dead, plan),
        crate::update::lists_removals(plan.gone@, listing, tables, dead),
        actions_planned(tables, doc_counts, plan, purge),
        carried_over(after, dead_after, tables, plan, kept, orders),
    ensures
        rearranged(after, dead_after, tables, plan.dead@, carried_from(plan, kept, orders)),
{
    let from = carried_from(plan, kept, orders);
    assert forall|k: int, i: int| #[trigger]
        crate::update::not_dead(after, dead_after, k, i) implies crate::update::not_dead(
        tables,
        plan.dead@,
        from(k, i).0,
        from(k, i).1,
    ) && crate::update::same_source(
        after[k].sources@[i],
        tables[from(k, i).0].sources@[from(k, i).1],
    ) by {
        let s = kept[k];
        if plan.actions@[s] is Repack {
            let order = orders[k];
            let olds = seq![tables[s]];
            let deads = seq![plan.dead@[s]];
            assert(crate::update::not_dead(olds, deads, order[i].0 as int, order[i].1 as int));
            assert(order[i].0 == 0);
            assert(crate::update::same_source(
                after[k].sources@[i],
                olds[order[i].0 as int].sources@[order[i].1 as int],
            ));
        }
    }
    assert forall|k: int, i: int, l: int, j: int|
        #[trigger] crate::update::not_dead(after, dead_after, k, i)
            && #[trigger] crate::update::not_dead(after, dead_after, l, j) && from(k, i) == from(
            l,
            j,
        ) implies k == l && i == j by {
        assert(kept[k] == kept[l]);
        if k < l {
            assert(kept[k] != kept[l]);
        } else if l < k {
            assert(kept[l] != kept[k]);
        }
        if plan.actions@[kept[k]] is Repack {
            let order = orders[k];
            let olds = seq![tables[kept[k]]];
            let deads = seq![plan.dead@[kept[k]]];
            assert(crate::update::not_dead(olds, deads, order[i].0 as int, order[i].1 as int));
            assert(crate::update::not_dead(olds, deads, order[j].0 as int, order[j].1 as int));
            if i < j {
                assert(order[i] != order[j]);
            } else if j < i {
                assert(order[j] != order[i]);
            }
        }
    }
    assert forall|s: int, j: int| #[trigger]
        crate::update::not_dead(tables, plan.dead@, s, j) implies exists|k: int, i: int| #[trigger]
        crate::update::not_dead(after, dead_after, k, i) && from(k, i) == (s, j) by {
        lemma_dropped_is_dead(listing, tables, dead, plan, s, j);
        assert(action_planned(tables, doc_counts, plan, purge, s));
        let k = choose|k: int| 0 <= k < kept.len() && #[trigger] kept[k] == s;
        if plan.actions@[s] is Repack {
            let order = orders[k];
            let olds = seq![tables[s]];
            let deads = seq![plan.dead@[s]];
            assert(tables[s].sources@.len() <= u32::MAX);
            assert(crate::update::not_dead(olds, deads, 0, j));
            assert(order.contains((0usize, j as u32)));
            let i = choose|i: int| 0 <= i < order.len() && order[i] == (0usize, j as u32);
            assert(crate::update::not_dead(after, dead_after, k, i));
            assert(from(k, i) == (s, j));
        } else {
            assert(crate::update::not_dead(after, dead_after, k, j));
            assert(from(k, j) == (s, j));
        }
    }
}

/// What happens to segment `s` is what the plan says.
pub open spec fn action_planned(
    tables: Seq<SegmentTables>,
    doc_counts: Seq<u32>,
    plan: UpdatePlan,
    purge: bool,
    s: int,
) -> bool {
    plan.actions@[s] == crate::update::action_of(
        doc_counts[s],
        tables[s],
        plan.dead@[s],
        crate::update::loses_sources(plan.gone@, s),
        purge,
    )
}

pub open spec fn actions_planned(
    tables: Seq<SegmentTables>,
    doc_counts: Seq<u32>,
    plan: UpdatePlan,
    purge: bool,
) -> bool {
    forall|s: int|
        0 <= s < tables.len() ==> #[trigger] action_planned(tables, doc_counts, plan, purge, s)
}

/// Segments built of added objects, behind those there are: segment `b` of them of the objects from
/// `starts[b]` up to `starts[b + 1]`.
pub open spec fn built_behind(
    after: Seq<SegmentTables>,
    dead_after: Seq<DeadSet>,
    before: Seq<SegmentTables>,
    dead_before: Seq<DeadSet>,
    to_add: Seq<ListedObject>,
    starts: Seq<int>,
) -> bool {
    &&& starts.len() > 0
    &&& before.len() == dead_before.len()
    &&& after.len() == before.len() + starts.len() - 1
    &&& dead_after.len() == after.len()
    &&& after.take(before.len() as int) == before
    &&& dead_after.take(before.len() as int) == dead_before
    &&& starts[0] == 0
    &&& starts.last() == to_add.len()
    &&& forall|a: int, b: int| 0 <= a <= b < starts.len() ==> #[trigger] starts[a] <= #[trigger] starts[b]
    &&& forall|b: int|
        0 <= b < starts.len() - 1 ==> built_of(
            after[before.len() + b],
            dead_after[before.len() + b],
            to_add,
            #[trigger] starts[b],
            starts[b + 1],
        )
}

/// The segment has an entry for each object from `start` up to `end`, and nothing dead.
pub open spec fn built_of(
    table: SegmentTables,
    dead: DeadSet,
    to_add: Seq<ListedObject>,
    start: int,
    end: int,
) -> bool {
    &&& dead.sources@.len() == 0
    &&& table.sources@.len() == end - start
    &&& forall|k: int|
        0 <= k < end - start ==> crate::update::added_source(
            #[trigger] table.sources@[k],
            to_add[start + k],
        )
}

/// Which of the built segments has object `a`.
proof fn lemma_built_at(starts: Seq<int>, n: int, a: int) -> (b: int)
    requires
        0 < n < starts.len(),
        starts[0] <= a < starts[n],
    ensures
        0 <= b < n,
        starts[b] <= a < starts[b + 1],
    decreases n,
{
    if n == 1 || starts[n - 1] <= a {
        n - 1
    } else {
        lemma_built_at(starts, n - 1, a)
    }
}

/// Two neighbours were merged into one that was written anew; without a place to merge nothing
/// changed.
pub open spec fn neighbours_merged(
    after: Seq<SegmentTables>,
    dead_after: Seq<DeadSet>,
    before: Seq<SegmentTables>,
    dead_before: Seq<DeadSet>,
    at: Option<int>,
    order: Seq<(usize, u32)>,
) -> bool {
    match at {
        None => after == before && dead_after == dead_before,
        Some(at) => {
            &&& 0 <= at && at + 1 < before.len()
            &&& before.len() == dead_before.len()
            &&& after.len() == before.len() - 1
            &&& dead_after.len() == after.len()
            &&& dead_after[at].sources@.len() == 0
            &&& rewritten(
                after[at],
                seq![before[at], before[at + 1]],
                seq![dead_before[at], dead_before[at + 1]],
                order,
            )
            &&& forall|k: int|
                0 <= k < after.len() && k != at ==> #[trigger] after[k] == before[if k < at {
                    k
                } else {
                    k + 1
                }] && dead_after[k] == dead_before[if k < at {
                    k
                } else {
                    k + 1
                }]
        },
    }
}

/// Where a source comes from when neighbours are merged.
pub open spec fn merged_from(at: Option<int>, order: Seq<(usize, u32)>) -> spec_fn(int, int) -> (
    int,
    int,
) {
    |k: int, i: int|
        match at {
            None => (k, i),
            Some(at) => if k < at {
                (k, i)
            } else if k == at {
                (at + order[i].0, order[i].1 as int)
            } else {
                (k + 1, i)
            },
        }
}

proof fn lemma_merged_rearranged(
    after: Seq<SegmentTables>,
    dead_after: Seq<DeadSet>,
    before: Seq<SegmentTables>,
    dead_before: Seq<DeadSet>,
    at: Option<int>,
    order: Seq<(usize, u32)>,
)
    requires
        neighbours_merged(after, dead_after, before, dead_before, at, order),
        crate::update::tables_small(before),
    ensures
        rearranged(after, dead_after, before, dead_before, merged_from(at, order)),
{
    let from = merged_from(at, order);
    if let Some(at) = at {
        let olds = seq![before[at], before[at + 1]];
        let deads = seq![dead_before[at], dead_before[at + 1]];
        assert forall|k: int, i: int| #[trigger]
            crate::update::not_dead(after, dead_after, k, i) implies crate::update::not_dead(
            before,
            dead_before,
            from(k, i).0,
            from(k, i).1,
        ) && crate::update::same_source(
            after[k].sources@[i],
            before[from(k, i).0].sources@[from(k, i).1],
        ) by {
            if k == at {
                assert(crate::update::not_dead(olds, deads, order[i].0 as int, order[i].1 as int));
                assert(crate::update::same_source(
                    after[k].sources@[i],
                    olds[order[i].0 as int].sources@[order[i].1 as int],
                ));
            } else {
                assert(after[k] == before[if k < at {
                    k
                } else {
                    k + 1
                }]);
            }
        }
        assert forall|k: int, i: int, l: int, j: int|
            #[trigger] crate::update::not_dead(after, dead_after, k, i)
                && #[trigger] crate::update::not_dead(after, dead_after, l, j) && from(k, i) == from(
                l,
                j,
            ) implies k == l && i == j by {
            if k == at {
                assert(crate::update::not_dead(olds, deads, order[i].0 as int, order[i].1 as int));
            }
            if l == at {
                assert(crate::update::not_dead(olds, deads, order[j].0 as int, order[j].1 as int));
            }
            if k == at && l == at {
                if i < j {
                    assert(order[i] != order[j]);
                } else if j < i {
                    assert(order[j] != order[i]);
                }
            }
        }
        assert forall|t: int, j: int| #[trigger]
            crate::update::not_dead(before, dead_before, t, j) implies exists|k: int, i: int|
            #[trigger] crate::update::not_dead(after, dead_after, k, i) && from(k, i) == (t, j) by {
            assert(before[t].sources@.len() <= u32::MAX);
            if t < at {
                assert(after[t] == before[t]);
                assert(crate::update::not_dead(after, dead_after, t, j) && from(t, j) == (t, j));
            } else if t > at + 1 {
                assert(after[t - 1] == before[t]);
                assert(crate::update::not_dead(after, dead_after, t - 1, j) && from(t - 1, j) == (
                    t,
                    j,
                ));
            } else {
                let o = t - at;
                assert(crate::update::not_dead(olds, deads, o, j));
                assert(order.contains((o as usize, j as u32)));
                let i = choose|i: int| 0 <= i < order.len() && order[i] == (o as usize, j as u32);
                assert(crate::update::not_dead(after, dead_after, at, i) && from(at, i) == (t, j));
            }
        }
    } else {
        assert forall|t: int, j: int| #[trigger]
            crate::update::not_dead(before, dead_before, t, j) implies exists|k: int, i: int|
            #[trigger] crate::update::not_dead(after, dead_after, k, i) && from(k, i) == (t, j) by {
            assert(crate::update::not_dead(after, dead_after, t, j) && from(t, j) == (t, j));
        }
    }
}

/// What the steps of an update leave, from the segments of the old root to those of the new one:
/// the old ones are carried over, added objects are built behind them, and two neighbours may be
/// merged.
pub struct UpdateTrace {
    pub carried: Seq<SegmentTables>,
    pub carried_dead: Seq<DeadSet>,
    pub kept: Seq<int>,
    pub orders: Seq<Seq<(usize, u32)>>,
    pub built: Seq<SegmentTables>,
    pub built_dead: Seq<DeadSet>,
    pub starts: Seq<int>,
    pub at: Option<int>,
    pub order: Seq<(usize, u32)>,
    pub after: Seq<SegmentTables>,
    pub dead_after: Seq<DeadSet>,
}

/// The trace is one of an update by the plan.
pub open spec fn traces(
    trace: UpdateTrace,
    tables: Seq<SegmentTables>,
    plan: UpdatePlan,
) -> bool {
    &&& carried_over(
        trace.carried,
        trace.carried_dead,
        tables,
        plan,
        trace.kept,
        trace.orders,
    )
    &&& built_behind(
        trace.built,
        trace.built_dead,
        trace.carried,
        trace.carried_dead,
        plan.to_add@,
        trace.starts,
    )
    &&& crate::update::tables_small(trace.built)
    &&& neighbours_merged(
        trace.after,
        trace.dead_after,
        trace.built,
        trace.built_dead,
        trace.at,
        trace.order,
    )
}

/// The plan was made for the listing.
pub open spec fn planned_for(
    listing: Seq<ListedObject>,
    tables: Seq<SegmentTables>,
    dead: Seq<DeadSet>,
    doc_counts: Seq<u32>,
    plan: UpdatePlan,
    purge: bool,
) -> bool {
    &&& crate::update::keys_distinct(listing)
    &&& plan_fits(tables, dead, plan)
    &&& crate::update::lists_additions(plan.to_add@, listing, tables, dead)
    &&& crate::update::lists_removals(plan.gone@, listing, tables, dead)
    &&& actions_planned(tables, doc_counts, plan, purge)
}

/// Where no key is held twice, what is not dead after a plan survives it, and what survives is not
/// dead.
proof fn lemma_left_survives(
    tables: Seq<SegmentTables>,
    dead: Seq<DeadSet>,
    plan: UpdatePlan,
    s: int,
    i: int,
)
    requires
        plan_fits(tables, dead, plan),
        keys_once(tables, dead),
    ensures
        crate::update::not_dead(tables, plan.dead@, s, i) <==> crate::update::survives(
            plan.gone@,
            tables,
            dead,
            s,
            i,
        ),
{
    if 0 <= s < tables.len() && 0 <= i < tables[s].sources@.len() {
        assert(crate::update::grown_dead(
            plan.dead@[s],
            dead[s],
            tables[s],
            plan.gone@,
            s as usize,
        ));
        assert(tables[s].sources@.len() <= u32::MAX);
        assert(plan.dead@[s].sources@.contains(i as u32) <==> dead[s].sources@.contains(i as u32)
            || plan.gone@.contains((s as usize, i as u32)));
        if crate::update::not_dead(tables, dead, s, i) && crate::update::superseded(
            tables,
            dead,
            s,
            i,
        ) {
            let (t, j) = choose|t: int, j: int| #[trigger]
                crate::update::not_dead(tables, dead, t, j) && crate::update::pair_before(
                    (s, i),
                    (t, j),
                ) && tables[t].sources@[j].key@ == tables[s].sources@[i].key@;
            assert(s == t && i == j);
        }
    }
}

/// The built segments hold what was carried over and what was added, no key twice.
proof fn lemma_built_once(
    listing: Seq<ListedObject>,
    tables: Seq<SegmentTables>,
    dead: Seq<DeadSet>,
    doc_counts: Seq<u32>,
    plan: UpdatePlan,
    purge: bool,
    trace: UpdateTrace,
)
    requires
        planned_for(listing, tables, dead, doc_counts, plan, purge),
        keys_once(tables, dead),
        traces(trace, tables, plan),
    ensures
        keys_once(trace.built, trace.built_dead),
{
    let from = carried_from(plan, trace.kept, trace.orders);
    let n = trace.carried.len() as int;
    lemma_carried_rearranged(
        listing,
        trace.carried,
        trace.carried_dead,
        tables,
        dead,
        doc_counts,
        plan,
        purge,
        trace.kept,
        trace.orders,
    );
    assert(keys_once(tables, plan.dead@)) by {
        assert forall|s: int, i: int, t: int, j: int|
            #[trigger] crate::update::not_dead(tables, plan.dead@, s, i)
                && #[trigger] crate::update::not_dead(tables, plan.dead@, t, j)
                && tables[s].sources@[i].key@ == tables[t].sources@[j].key@ implies s == t && i
            == j by {
            lemma_left_survives(tables, dead, plan, s, i);
            lemma_left_survives(tables, dead, plan, t, j);
            assert(crate::update::not_dead(tables, dead, s, i));
            assert(crate::update::not_dead(tables, dead, t, j));
        }
    }
    lemma_rearranged_once(trace.carried, trace.carried_dead, tables, plan.dead@, from);
    assert forall|s: int, i: int, t: int, j: int|
        #[trigger] crate::update::not_dead(trace.built, trace.built_dead, s, i)
            && #[trigger] crate::update::not_dead(trace.built, trace.built_dead, t, j)
            && trace.built[s].sources@[i].key@ == trace.built[t].sources@[j].key@ implies s == t && i
        == j by {
        if s <= t {
            lemma_two_sources(listing, tables, dead, doc_counts, plan, purge, trace, s, i, t, j);
        } else {
            lemma_two_sources(listing, tables, dead, doc_counts, plan, purge, trace, t, j, s, i);
        }
    }
}

/// A source of the built segments: carried over, or that of an added object.
proof fn lemma_source_kind(trace: UpdateTrace, tables: Seq<SegmentTables>, plan: UpdatePlan, s: int, i: int) -> (a: int)
    requires
        traces(trace, tables, plan),
        crate::update::not_dead(trace.built, trace.built_dead, s, i),
    ensures
        s < trace.carried.len() ==> crate::update::not_dead(
            trace.carried,
            trace.carried_dead,
            s,
            i,
        ) && trace.built[s] == trace.carried[s],
        s >= trace.carried.len() ==> 0 <= a < plan.to_add@.len() && a == trace.starts[s
            - trace.carried.len()] + i && a < trace.starts[s - trace.carried.len() + 1]
            && crate::update::added_source(trace.built[s].sources@[i], plan.to_add@[a]),
{
    let n = trace.carried.len() as int;
    if s < n {
        assert(trace.built.take(n)[s] == trace.built[s]);
        assert(trace.built_dead.take(n)[s] == trace.built_dead[s]);
        0
    } else {
        let b = s - n;
        assert(built_of(
            trace.built[n + b],
            trace.built_dead[n + b],
            plan.to_add@,
            trace.starts[b],
            trace.starts[b + 1],
        ));
        assert(trace.starts[0] <= trace.starts[b]);
        assert(trace.starts[b + 1] <= trace.starts[trace.starts.len() - 1]);
        trace.starts[b] + i
    }
}

proof fn lemma_two_sources(
    listing: Seq<ListedObject>,
    tables: Seq<SegmentTables>,
    dead: Seq<DeadSet>,
    doc_counts: Seq<u32>,
    plan: UpdatePlan,
    purge: bool,
    trace: UpdateTrace,
    s: int,
    i: int,
    t: int,
    j: int,
)
    requires
        planned_for(listing, tables, dead, doc_counts, plan, purge),
        keys_once(tables, dead),
        traces(trace, tables, plan),
        keys_once(trace.carried, trace.carried_dead),
        rearranged(
            trace.carried,
            trace.carried_dead,
            tables,
            plan.dead@,
            carried_from(plan, trace.kept, trace.orders),
        ),
        crate::update::not_dead(trace.built, trace.built_dead, s, i),
        crate::update::not_dead(trace.built, trace.built_dead, t, j),
        trace.built[s].sources@[i].key@ == trace.built[t].sources@[j].key@,
        s <= t,
    ensures
        s == t && i == j,
{
    let n = trace.carried.len() as int;
    let from = carried_from(plan, trace.kept, trace.orders);
    let x = lemma_source_kind(trace, tables, plan, s, i);
    let y = lemma_source_kind(trace, tables, plan, t, j);
    if t >= n && s < n {
        let p = from(s, i);
        let entry = tables[p.0].sources@[p.1];
        assert(crate::update::not_dead(trace.carried, trace.carried_dead, s, i));
        assert(crate::update::not_dead(tables, plan.dead@, p.0, p.1));
        lemma_left_survives(tables, dead, plan, p.0, p.1);
        assert(crate::update::is_live(tables, dead, p.0, p.1));
        if !crate::update::still_listed(listing, entry) {
            assert(plan.gone@.contains((p.0 as usize, p.1 as u32)));
        }
        let l = choose|l: int|
            0 <= l < listing.len() && crate::update::settled_with(
                crate::update::object_view(#[trigger] listing[l]),
                entry,
            );
        let added = crate::update::object_view(plan.to_add@[y]);
        assert(crate::update::object_views(plan.to_add@)[y] == added);
        assert(crate::update::object_views(plan.to_add@).contains(added));
        assert(crate::update::object_views(listing).contains(added));
        let m = choose|m: int|
            0 <= m < crate::update::object_views(listing).len()
                && crate::update::object_views(listing)[m] == added;
        assert(crate::update::object_view(listing[m]) == added);
        assert(listing[m].0@ == listing[l].0@);
        if m < l {
            assert(listing[m].0@ != listing[l].0@);
        } else if l < m {
            assert(listing[l].0@ != listing[m].0@);
        }
        assert(crate::update::settled(tables, dead, added));
        assert(false);
    } else if s >= n {
        if x < y {
            crate::text::lemma_before_irreflexive(crate::text::utf8(plan.to_add@[x].0@));
            assert(crate::text::text_before(plan.to_add@[x].0@, plan.to_add@[y].0@));
        } else if y < x {
            crate::text::lemma_before_irreflexive(crate::text::utf8(plan.to_add@[x].0@));
            assert(crate::text::text_before(plan.to_add@[y].0@, plan.to_add@[x].0@));
        }
        let b = s - n;
        let c = t - n;
        if b < c {
            assert(trace.starts[b + 1] <= trace.starts[c]);
        }
    } else {
        assert(crate::update::not_dead(trace.carried, trace.carried_dead, s, i));
        assert(crate::update::not_dead(trace.carried, trace.carried_dead, t, j));
    }
}

/// Where no key is held twice, every source that is not dead is live.
proof fn lemma_once_is_live(tables: Seq<SegmentTables>, dead: Seq<DeadSet>, s: int, i: int)
    requires
        keys_once(tables, dead),
        crate::update::not_dead(tables, dead, s, i),
    ensures
        crate::update::is_live(tables, dead, s, i),
{
    if crate::update::superseded(tables, dead, s, i) {
        let (t, j) = choose|t: int, j: int| #[trigger]
            crate::update::not_dead(tables, dead, t, j) && crate::update::pair_before(
                (s, i),
                (t, j),
            ) && tables[t].sources@[j].key@ == tables[s].sources@[i].key@;
        assert(s == t && i == j);
    }
}

/// A source of the new root survived the update or was added by it.
proof fn lemma_source_origin(
    listing: Seq<ListedObject>,
    tables: Seq<SegmentTables>,
    dead: Seq<DeadSet>,
    doc_counts: Seq<u32>,
    plan: UpdatePlan,
    purge: bool,
    trace: UpdateTrace,
    s: int,
    i: int,
)
    requires
        planned_for(listing, tables, dead, doc_counts, plan, purge),
        keys_once(tables, dead),
        traces(trace, tables, plan),
        keys_once(trace.after, trace.dead_after),
        rearranged(
            trace.carried,
            trace.carried_dead,
            tables,
            plan.dead@,
            carried_from(plan, trace.kept, trace.orders),
        ),
        rearranged(
            trace.after,
            trace.dead_after,
            trace.built,
            trace.built_dead,
            merged_from(trace.at, trace.order),
        ),
        crate::update::not_dead(trace.after, trace.dead_after, s, i),
    ensures
        crate::update::comes_from_update(
            trace.after[s].sources@[i],
            tables,
            dead,
            plan.gone@,
            plan.to_add@,
        ),
{
    let first = carried_from(plan, trace.kept, trace.orders);
    let (t, j) = merged_from(trace.at, trace.order)(s, i);
    assert(crate::update::not_dead(trace.built, trace.built_dead, t, j));
    let a = lemma_source_kind(trace, tables, plan, t, j);
    if t < trace.carried.len() {
        assert(crate::update::not_dead(trace.carried, trace.carried_dead, t, j));
        let (u, k) = first(t, j);
        assert(crate::update::not_dead(tables, plan.dead@, u, k));
        lemma_left_survives(tables, dead, plan, u, k);
        assert(crate::update::survives(plan.gone@, tables, dead, u, k));
        assert(crate::update::same_source(trace.after[s].sources@[i], tables[u].sources@[k]));
    } else {
        assert(crate::update::added_source(trace.after[s].sources@[i], plan.to_add@[a]));
    }
}

/// A source of the built segments is in the new root.
proof fn lemma_built_is_there(trace: UpdateTrace, t: int, j: int) -> (place: (int, int))
    requires
        keys_once(trace.after, trace.dead_after),
        rearranged(
            trace.after,
            trace.dead_after,
            trace.built,
            trace.built_dead,
            merged_from(trace.at, trace.order),
        ),
        crate::update::not_dead(trace.built, trace.built_dead, t, j),
    ensures
        crate::update::is_live(trace.after, trace.dead_after, place.0, place.1),
        crate::update::same_source(
            trace.after[place.0].sources@[place.1],
            trace.built[t].sources@[j],
        ),
{
    let last = merged_from(trace.at, trace.order);
    let (s, i) = choose|s: int, i: int| #[trigger]
        crate::update::not_dead(trace.after, trace.dead_after, s, i) && last(s, i) == (t, j);
    lemma_once_is_live(trace.after, trace.dead_after, s, i);
    (s, i)
}

/// A source that survives is in the new root.
proof fn lemma_survivor_is_there(
    listing: Seq<ListedObject>,
    tables: Seq<SegmentTables>,
    dead: Seq<DeadSet>,
    doc_counts: Seq<u32>,
    plan: UpdatePlan,
    purge: bool,
    trace: UpdateTrace,
    u: int,
    k: int,
) -> (place: (int, int))
    requires
        planned_for(listing, tables, dead, doc_counts, plan, purge),
        keys_once(tables, dead),
        traces(trace, tables, plan),
        keys_once(trace.after, trace.dead_after),
        rearranged(
            trace.carried,
            trace.carried_dead,
            tables,
            plan.dead@,
            carried_from(plan, trace.kept, trace.orders),
        ),
        rearranged(
            trace.after,
            trace.dead_after,
            trace.built,
            trace.built_dead,
            merged_from(trace.at, trace.order),
        ),
        crate::update::survives(plan.gone@, tables, dead, u, k),
    ensures
        crate::update::is_live(trace.after, trace.dead_after, place.0, place.1),
        crate::update::same_source(
            trace.after[place.0].sources@[place.1],
            tables[u].sources@[k],
        ),
{
    let first = carried_from(plan, trace.kept, trace.orders);
    let n = trace.carried.len() as int;
    lemma_left_survives(tables, dead, plan, u, k);
    assert(crate::update::not_dead(tables, plan.dead@, u, k));
    let (t, j) = choose|t: int, j: int| #[trigger]
        crate::update::not_dead(trace.carried, trace.carried_dead, t, j) && first(t, j) == (u, k);
    assert(trace.built.take(n)[t] == trace.built[t]);
    assert(trace.built_dead.take(n)[t] == trace.built_dead[t]);
    assert(crate::update::not_dead(trace.built, trace.built_dead, t, j));
    lemma_built_is_there(trace, t, j)
}

/// An added object is in the new root.
proof fn lemma_added_is_there(
    listing: Seq<ListedObject>,
    tables: Seq<SegmentTables>,
    dead: Seq<DeadSet>,
    doc_counts: Seq<u32>,
    plan: UpdatePlan,
    purge: bool,
    trace: UpdateTrace,
    a: int,
) -> (place: (int, int))
    requires
        planned_for(listing, tables, dead, doc_counts, plan, purge),
        keys_once(tables, dead),
        traces(trace, tables, plan),
        keys_once(trace.after, trace.dead_after),
        rearranged(
            trace.carried,
            trace.carried_dead,
            tables,
            plan.dead@,
            carried_from(plan, trace.kept, trace.orders),
        ),
        rearranged(
            trace.after,
            trace.dead_after,
            trace.built,
            trace.built_dead,
            merged_from(trace.at, trace.order),
        ),
        0 <= a < plan.to_add@.len(),
    ensures
        crate::update::is_live(trace.after, trace.dead_after, place.0, place.1),
        crate::update::added_source(
            trace.after[place.0].sources@[place.1],
            plan.to_add@[a],
        ),
{
    let n = trace.carried.len() as int;
    let b = lemma_built_at(trace.starts, trace.starts.len() - 1, a);
    let t = n + b;
    let j = a - trace.starts[b];
    assert(built_of(
        trace.built[n + b],
        trace.built_dead[n + b],
        plan.to_add@,
        trace.starts[b],
        trace.starts[b + 1],
    ));
    assert(crate::update::added_source(trace.built[t].sources@[j], plan.to_add@[a]));
    assert(crate::update::not_dead(trace.built, trace.built_dead, t, j));
    lemma_built_is_there(trace, t, j)
}

/// A finished update leaves an index of the listing: its live sources are those that survived and
/// those that were added, and no key is held twice, if none was before.
pub proof fn finished_updates_hold_the_listing(
    listing: Seq<ListedObject>,
    tables: Seq<SegmentTables>,
    dead: Seq<DeadSet>,
    doc_counts: Seq<u32>,
    plan: UpdatePlan,
    purge: bool,
    trace: UpdateTrace,
)
    requires
        planned_for(listing, tables, dead, doc_counts, plan, purge),
        keys_once(tables, dead),
        traces(trace, tables, plan),
    ensures
        keys_once(trace.after, trace.dead_after),
        crate::update::is_updated(
            trace.after,
            trace.dead_after,
            tables,
            dead,
            plan.gone@,
            plan.to_add@,
        ),
{
    let after = trace.after;
    let dead_after = trace.dead_after;
    lemma_built_once(listing, tables, dead, doc_counts, plan, purge, trace);
    lemma_carried_rearranged(
        listing,
        trace.carried,
        trace.carried_dead,
        tables,
        dead,
        doc_counts,
        plan,
        purge,
        trace.kept,
        trace.orders,
    );
    lemma_merged_rearranged(
        after,
        dead_after,
        trace.built,
        trace.built_dead,
        trace.at,
        trace.order,
    );
    lemma_rearranged_once(
        after,
        dead_after,
        trace.built,
        trace.built_dead,
        merged_from(trace.at, trace.order),
    );
    assert forall|s: int, i: int| #[trigger]
        crate::update::is_live(after, dead_after, s, i) implies crate::update::comes_from_update(
        after[s].sources@[i],
        tables,
        dead,
        plan.gone@,
        plan.to_add@,
    ) by {
        lemma_source_origin(listing, tables, dead, doc_counts, plan, purge, trace, s, i);
    }
    assert forall|u: int, k: int| #[trigger]
        crate::update::survives(plan.gone@, tables, dead, u, k) implies crate::update::holds_source(
        after,
        dead_after,
        tables[u].sources@[k],
    ) by {
        let (s, i) = lemma_survivor_is_there(
            listing,
            tables,
            dead,
            doc_counts,
            plan,
            purge,
            trace,
            u,
            k,
        );
        assert(crate::update::is_live(after, dead_after, s, i));
    }
    assert forall|a: int| 0 <= a < plan.to_add@.len() implies crate::update::holds_added(
        after,
        dead_after,
        #[trigger] plan.to_add@[a],
    ) by {
        let (s, i) = lemma_added_is_there(
            listing,
            tables,
            dead,
            doc_counts,
            plan,
            purge,
            trace,
            a,
        );
        assert(crate::update::is_live(after, dead_after, s, i));
    }
}

/// How many of the live sources come before source `i` of segment `s`, and how many documents they
/// have.
#[verifier::spinoff_prover]
proof fn lemma_live_prefix(
    tables: Seq<SegmentTables>,
    dead: Seq<DeadSet>,
    live: Seq<(usize, u32)>,
    s: int,
    i: int,
) -> (a: int)
    requires
        crate::update::lists_live(live, tables, dead),
        keys_once(tables, dead),
        crate::update::tables_small(tables),
        tables.len() <= usize::MAX,
        0 <= s < tables.len(),
        0 <= i <= tables[s].sources@.len(),
    ensures
        0 <= a <= live.len(),
        forall|b: int|
            0 <= b < live.len() ==> (b < a <==> crate::update::pair_before(
                ((#[trigger] live[b]).0 as int, live[b].1 as int),
                (s, i),
            )),
        crate::update::live_docs(tables, live, a) == crate::update::docs_total(tables, dead, s)
            + crate::update::segment_docs(tables[s], dead[s], i),
    decreases s, i,
{
    assert(tables[s].sources@.len() <= u32::MAX);
    if i == 0 {
        if s == 0 {
            0
        } else {
            let before = tables[s - 1].sources@.len() as int;
            let a = lemma_live_prefix(tables, dead, live, s - 1, before);
            assert forall|b: int| 0 <= b < live.len() implies (b < a
                <==> crate::update::pair_before(
                ((#[trigger] live[b]).0 as int, live[b].1 as int),
                (s, i),
            )) by {
                assert(crate::update::is_live(
                    tables,
                    dead,
                    live[b].0 as int,
                    live[b].1 as int,
                ));
            }
            a
        }
    } else {
        let a = lemma_live_prefix(tables, dead, live, s, i - 1);
        if crate::update::not_dead(tables, dead, s, i - 1) {
            lemma_once_is_live(tables, dead, s, i - 1);
            assert(live.contains((s as usize, (i - 1) as u32)));
            let c = choose|c: int| 0 <= c < live.len() && live[c] == (s as usize, (i - 1) as u32);
            if a < c {
                assert(crate::update::pair_before(
                    (live[a].0 as int, live[a].1 as int),
                    (live[c].0 as int, live[c].1 as int),
                ));
            }
            assert(c == a);
            assert forall|b: int| 0 <= b < live.len() implies (b < a + 1
                <==> crate::update::pair_before(
                ((#[trigger] live[b]).0 as int, live[b].1 as int),
                (s, i),
            )) by {
                if b > a {
                    assert(crate::update::pair_before(
                        (live[a].0 as int, live[a].1 as int),
                        (live[b].0 as int, live[b].1 as int),
                    ));
                }
            }
            a + 1
        } else {
            assert forall|b: int| 0 <= b < live.len() implies (b < a <==> crate::update::pair_before(
                ((#[trigger] live[b]).0 as int, live[b].1 as int),
                (s, i),
            )) by {
                assert(crate::update::is_live(
                    tables,
                    dead,
                    live[b].0 as int,
                    live[b].1 as int,
                ));
            }
            a
        }
    }
}

/// Where no key is held twice, the live sources have the documents that the segments count.
proof fn lemma_live_total(
    tables: Seq<SegmentTables>,
    dead: Seq<DeadSet>,
    live: Seq<(usize, u32)>,
)
    requires
        crate::update::lists_live(live, tables, dead),
        keys_once(tables, dead),
        crate::update::tables_small(tables),
        tables.len() <= usize::MAX,
    ensures
        crate::update::live_docs(tables, live, live.len() as int) == crate::update::docs_total(
            tables,
            dead,
            tables.len() as int,
        ),
{
    if tables.len() == 0 {
        if live.len() > 0 {
            assert(crate::update::is_live(tables, dead, live[0].0 as int, live[0].1 as int));
        }
    } else {
        let s = tables.len() - 1;
        let n = tables[s].sources@.len() as int;
        let a = lemma_live_prefix(tables, dead, live, s, n);
        if a < live.len() {
            assert(crate::update::is_live(tables, dead, live[a].0 as int, live[a].1 as int));
            assert(crate::update::pair_before((live[a].0 as int, live[a].1 as int), (s, n)));
        }
    }
}

/// The counts of documents of the segments follow them: a segment with dead sources is one that was
/// carried over, and has the count it had.
pub open spec fn counts_follow(
    trace: UpdateTrace,
    doc_counts: Seq<u32>,
    counts_after: Seq<u32>,
) -> bool {
    forall|s: int|
        0 <= s < trace.after.len() && (#[trigger] trace.dead_after[s]).sources@.len() > 0 ==> {
            let k = merged_from(trace.at, trace.order)(s, 0).0;
            k < trace.kept.len() ==> counts_after[s] == doc_counts[trace.kept[k]]
        }
}

/// An update settles its listing: a second one finds nothing to add and nothing to remove, counts
/// the documents that the first one reported and, where the root is there and names few enough
/// segments, is up to date. Objects that are to be tried again are left out, for these it
/// tries again.
#[verifier::spinoff_prover]
#[verifier::rlimit(50)]
pub proof fn updates_settle_their_listing(
    listing: Seq<ListedObject>,
    tables: Seq<SegmentTables>,
    dead: Seq<DeadSet>,
    doc_counts: Seq<u32>,
    first: UpdatePlan,
    trace: UpdateTrace,
    counts_after: Seq<u32>,
    second: UpdatePlan,
    live: Seq<(usize, u32)>,
    flags: UpdateFlags,
    first_total: usize,
)
    requires
        planned_for(listing, tables, dead, doc_counts, first, false),
        keys_once(tables, dead),
        first_total == crate::update::counted(
            crate::update::docs_total(
                trace.after,
                trace.dead_after,
                trace.after.len() as int,
            ) as int,
        ),
        traces(trace, tables, first),
        counts_follow(trace, doc_counts, counts_after),
        planned_for(
            listing,
            trace.after,
            trace.dead_after,
            counts_after,
            second,
            flags.purge_deleted,
        ),
        forall|s: int, i: int| #[trigger]
            crate::update::is_live(trace.after, trace.dead_after, s, i)
                ==> !trace.after[s].sources@[i].retry,
        crate::update::lists_live(live, trace.after, trace.dead_after),
        second.total_docs == crate::update::counted(
            crate::update::live_docs(trace.after, live, live.len() as int) as int,
        ),
        second.up_to_date <==> second.to_add@.len() == 0 && second.gone@.len() == 0
            && !flags.forced && trace.after.len() <= crate::update::SEGMENT_COUNT_TARGET
            && !crate::update::repack_due(
            trace.after,
            trace.dead_after,
            counts_after,
            flags.purge_deleted,
            trace.after.len() as int,
        ) && !flags.root_missing,
    ensures
        second.to_add@.len() == 0,
        second.gone@.len() == 0,
        second.total_docs == first_total,
        !flags.forced && !flags.purge_deleted && !flags.root_missing && trace.after.len()
            <= crate::update::SEGMENT_COUNT_TARGET ==> second.up_to_date,
{
    assert(keys_once(trace.after, trace.dead_after) && crate::update::is_updated(
        trace.after,
        trace.dead_after,
        tables,
        dead,
        first.gone@,
        first.to_add@,
    )) by {
        finished_updates_hold_the_listing(listing, tables, dead, doc_counts, first, false, trace);
    }
    assert(second.total_docs == first_total) by {
        lemma_live_total(trace.after, trace.dead_after, live);
    }
    lemma_kept_segments(listing, tables, dead, doc_counts, first, trace, counts_after);
    crate::update::repeated_updates_change_nothing(
        listing,
        tables,
        dead,
        first,
        trace.after,
        trace.dead_after,
        counts_after,
        second,
        flags,
    );
}

/// A segment of the new root with dead sources was kept, or recorded, as the plan said.
#[verifier::spinoff_prover]
proof fn lemma_kept_as_planned(
    listing: Seq<ListedObject>,
    tables: Seq<SegmentTables>,
    dead: Seq<DeadSet>,
    doc_counts: Seq<u32>,
    plan: UpdatePlan,
    trace: UpdateTrace,
    counts_after: Seq<u32>,
    s: int,
)
    requires
        planned_for(listing, tables, dead, doc_counts, plan, false),
        traces(trace, tables, plan),
        counts_follow(trace, doc_counts, counts_after),
        0 <= s < trace.after.len(),
        trace.dead_after[s].sources@.len() > 0,
    ensures
        exists|changed: bool| #[trigger]
            crate::update::kept_segment(
                trace.after[s],
                trace.dead_after[s],
                counts_after[s],
                changed,
            ),
{
    let n = trace.carried.len() as int;
    let k = merged_from(trace.at, trace.order)(s, 0).0;
    if let Some(at) = trace.at {
        assert(s != at);
        assert(trace.after[s] == trace.built[if s < at {
            s
        } else {
            s + 1
        }]);
    }
    assert(trace.after[s] == trace.built[k] && trace.dead_after[s] == trace.built_dead[k]);
    if k >= n {
        let b = k - n;
        assert(built_of(
            trace.built[n + b],
            trace.built_dead[n + b],
            plan.to_add@,
            trace.starts[b],
            trace.starts[b + 1],
        ));
    }
    assert(trace.built.take(n)[k] == trace.built[k]);
    assert(trace.built_dead.take(n)[k] == trace.built_dead[k]);
    let t = trace.kept[k];
    assert(action_planned(tables, doc_counts, plan, false, t));
    let changed = crate::update::loses_sources(plan.gone@, t);
    assert(crate::update::kept_segment(
        trace.after[s],
        trace.dead_after[s],
        counts_after[s],
        changed,
    ));
}

/// Every segment of the new root has no dead sources, or was kept or recorded as the plan said.
#[verifier::spinoff_prover]
proof fn lemma_kept_segments(
    listing: Seq<ListedObject>,
    tables: Seq<SegmentTables>,
    dead: Seq<DeadSet>,
    doc_counts: Seq<u32>,
    plan: UpdatePlan,
    trace: UpdateTrace,
    counts_after: Seq<u32>,
)
    requires
        planned_for(listing, tables, dead, doc_counts, plan, false),
        traces(trace, tables, plan),
        counts_follow(trace, doc_counts, counts_after),
    ensures
        forall|s: int|
            0 <= s < trace.after.len() ==> trace.dead_after[s].sources@.len() == 0
                || exists|changed: bool| #[trigger]
                crate::update::kept_segment(
                    #[trigger] trace.after[s],
                    trace.dead_after[s],
                    counts_after[s],
                    changed,
                ),
{
    assert forall|s: int| 0 <= s < trace.after.len() implies trace.dead_after[s].sources@.len() == 0
        || exists|changed: bool| #[trigger]
        crate::update::kept_segment(
            #[trigger] trace.after[s],
            trace.dead_after[s],
            counts_after[s],
            changed,
        ) by {
        if trace.dead_after[s].sources@.len() > 0 {
            lemma_kept_as_planned(listing, tables, dead, doc_counts, plan, trace, counts_after, s);
        }
    }
}

} // verus!
