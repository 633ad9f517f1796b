//! Greedy batching of weighted items in their given order.

use vstd::prelude::*;

verus! {

/// Weight of items `start..end`.
pub open spec fn weight(weights: Seq<u64>, start: int, end: int) -> nat
    decreases end - start,
{
    if end <= start {
        0
    } else {
        weight(weights, start, end - 1) + weights[end - 1] as nat
    }
}

/// Item `end` joins the batch that began at `start`. The first item always does; a later one
/// only if neither it nor the first stands alone and what is left of the budget holds it.
pub open spec fn joins(
    weights: Seq<u64>,
    alone: Seq<bool>,
    start: int,
    end: int,
    max_items: nat,
    max_weight: u64,
) -> bool {
    &&& end < weights.len()
    &&& end - start < max_items
    &&& end == start || (!alone[end] && !alone[end - 1] && (weights[end] == 0 || weight(
        weights,
        start,
        end,
    ) + weights[end] <= max_weight))
}

/// Where the batch that began at `start` and has reached `end` ends.
pub open spec fn batch_end(
    weights: Seq<u64>,
    alone: Seq<bool>,
    start: int,
    end: int,
    max_items: nat,
    max_weight: u64,
) -> int
    decreases weights.len() - end,
{
    if joins(weights, alone, start, end, max_items, max_weight) {
        batch_end(weights, alone, start, end + 1, max_items, max_weight)
    } else {
        end
    }
}

/// `batches` are the greedy batches of items `0..end`.
pub open spec fn greedy(
    batches: Seq<(usize, usize)>,
    end: int,
    weights: Seq<u64>,
    alone: Seq<bool>,
    max_items: nat,
    max_weight: u64,
) -> bool {
    &&& forall|b: int|
        0 <= b < batches.len() ==> (#[trigger] batches[b]).0 < batches[b].1 && batches[b].1
            == batch_end(
            weights,
            alone,
            batches[b].0 as int,
            batches[b].0 as int,
            max_items,
            max_weight,
        )
    &&& forall|b: int|
        0 <= b < batches.len() ==> batches[b].0 == #[trigger] boundary(batches, b)
    &&& boundary(batches, batches.len() as int) == end
}

/// End of the batch before batch `b`.
pub open spec fn boundary(batches: Seq<(usize, usize)>, b: int) -> int {
    if b <= 0 {
        0
    } else {
        batches[b - 1].1 as int
    }
}

/// Cut items into batches, each as long as the limits let it be; an item that stands alone has a
/// batch to itself.
#[verifier::rlimit(30)]
pub fn greedy_batches(
    weights: &[u64],
    alone: &[bool],
    max_items: usize,
    max_weight: u64,
) -> (batches: Vec<(usize, usize)>)
    requires
        weights@.len() == alone@.len(),
        max_items > 0,
    ensures
        greedy(
            batches@,
            weights@.len() as int,
            weights@,
            alone@,
            max_items as nat,
            max_weight,
        ),
{
    let mut batches: Vec<(usize, usize)> = Vec::new();
    let mut start: usize = 0;
    let n: usize = weights.len();
    while start < n
        invariant
            n == weights@.len(),
            weights@.len() == alone@.len(),
            max_items > 0,
            start <= n,
            greedy(batches@, start as int, weights@, alone@, max_items as nat, max_weight),
        decreases n - start,
    {
        let mut end: usize = start;
        let mut total: u64 = 0;
        let mut open: bool = true;
        let ghost goal = batch_end(
            weights@,
            alone@,
            start as int,
            start as int,
            max_items as nat,
            max_weight,
        );
        while open && end < n && end - start < max_items
            invariant
                n == weights@.len(),
                weights@.len() == alone@.len(),
                max_items > 0,
                start < n,
                start <= end <= n,
                open || end > start,
                !open ==> goal == end,
                open ==> goal == batch_end(
                    weights@,
                    alone@,
                    start as int,
                    end as int,
                    max_items as nat,
                    max_weight,
                ),
                open && end > start ==> !alone@[end - 1],
                total == if weight(weights@, start as int, end as int) > u64::MAX {
                    u64::MAX as nat
                } else {
                    weight(weights@, start as int, end as int)
                },
            decreases n - end, open as int,
        {
            let next: u64 = weights[end];
            let left: u64 = if total > max_weight { 0 } else { max_weight - total };
            let ghost at = end as int;
            if end > start && (alone[end] || next > left) {
                open = false;
                assert(!joins(weights@, alone@, start as int, at, max_items as nat, max_weight));
            } else {
                assert(joins(weights@, alone@, start as int, at, max_items as nat, max_weight));
                total = if next > 0xffff_ffff_ffff_ffff - total {
                    0xffff_ffff_ffff_ffff
                } else {
                    total + next
                };
                end = end + 1;
                if alone[end - 1] {
                    open = false;
                    assert(!joins(
                        weights@,
                        alone@,
                        start as int,
                        end as int,
                        max_items as nat,
                        max_weight,
                    ));
                    assert(batch_end(
                        weights@,
                        alone@,
                        start as int,
                        end as int,
                        max_items as nat,
                        max_weight,
                    ) == end);
                }
            }
        }
        let ghost before = batches@;
        batches.push((start, end));
        proof {
            assert(goal == end);
            assert forall|b: int| 0 <= b < batches@.len() implies batches@[b].0
                == #[trigger] boundary(batches@, b) by {
                if b < before.len() {
                    assert(boundary(before, b) == boundary(batches@, b));
                    assert(before[b].0 == boundary(before, b));
                } else {
                    assert(boundary(before, before.len() as int) == start);
                    assert(boundary(batches@, b) == boundary(before, b));
                }
            }
            assert forall|b: int| 0 <= b < batches@.len() implies (#[trigger] batches@[b]).0
                < batches@[b].1 && batches@[b].1 == batch_end(
                weights@,
                alone@,
                batches@[b].0 as int,
                batches@[b].0 as int,
                max_items as nat,
                max_weight,
            ) by {
                if b < before.len() {
                    assert(batches@[b] == before[b]);
                }
            }
        }
        start = end;
    }
    batches
}

proof fn lemma_batch_end(
    weights: Seq<u64>,
    alone: Seq<bool>,
    start: int,
    end: int,
    max_items: nat,
    max_weight: u64,
)
    requires
        0 <= start <= end <= weights.len(),
        end - start <= max_items || end == start,
        weight(weights, start, end) <= max_weight || forall|k: int|
            start < k < end ==> weights[k] == 0,
    ensures
        ({
            let e = batch_end(weights, alone, start, end, max_items, max_weight);
            &&& end <= e <= weights.len()
            &&& e - start <= max_items || e == start
            &&& weight(weights, start, e) <= max_weight || forall|k: int|
                start < k < e ==> weights[k] == 0
        }),
    decreases weights.len() - end,
{
    if joins(weights, alone, start, end, max_items, max_weight) {
        lemma_batch_end(weights, alone, start, end + 1, max_items, max_weight);
    }
}

/// Greedy batches cover the items in order, each once; none holds more than `max_items`, and one
/// that weighs more than `max_weight` holds a single item that weighs anything.
pub proof fn greedy_batches_keep_limits(
    batches: Seq<(usize, usize)>,
    weights: Seq<u64>,
    alone: Seq<bool>,
    max_items: nat,
    max_weight: u64,
    b: int,
)
    requires
        greedy(batches, weights.len() as int, weights, alone, max_items, max_weight),
        0 <= b < batches.len(),
    ensures
        batches[b].0 == boundary(batches, b),
        boundary(batches, batches.len() as int) == weights.len(),
        batches[b].0 < batches[b].1 <= weights.len(),
        batches[b].1 - batches[b].0 <= max_items,
        weight(weights, batches[b].0 as int, batches[b].1 as int) <= max_weight || forall|k: int|
            batches[b].0 < k < batches[b].1 ==> weights[k] == 0,
{
    lemma_boundary_mono(batches, weights, alone, max_items, max_weight, b);
    assert(batches[b].0 == boundary(batches, b));
    lemma_batch_end(
        weights,
        alone,
        batches[b].0 as int,
        batches[b].0 as int,
        max_items,
        max_weight,
    );
}

proof fn lemma_boundary_mono(
    batches: Seq<(usize, usize)>,
    weights: Seq<u64>,
    alone: Seq<bool>,
    max_items: nat,
    max_weight: u64,
    b: int,
)
    requires
        greedy(batches, weights.len() as int, weights, alone, max_items, max_weight),
        0 <= b < batches.len(),
    ensures
        batches[b].1 <= weights.len(),
    decreases batches.len() - b,
{
    if b + 1 < batches.len() {
        lemma_boundary_mono(batches, weights, alone, max_items, max_weight, b + 1);
        assert(batches[b + 1].0 == boundary(batches, b + 1));
        assert(batches[b + 1].0 < batches[b + 1].1);
    } else {
        assert(boundary(batches, batches.len() as int) == batches[b].1);
    }
}

/// Batches are as large as they may be: the item behind a batch that is not the last could not have
/// joined it. An item that goes alone has a batch of its own.
pub proof fn greedy_batches_are_full(
    batches: Seq<(usize, usize)>,
    weights: Seq<u64>,
    alone: Seq<bool>,
    max_items: nat,
    max_weight: u64,
    b: int,
)
    requires
        greedy(batches, weights.len() as int, weights, alone, max_items, max_weight),
        weights.len() == alone.len(),
        0 <= b < batches.len(),
    ensures
        b + 1 < batches.len() ==> {
            let (start, end) = (batches[b].0 as int, batches[b].1 as int);
            ||| end - start >= max_items
            ||| alone[end] || alone[end - 1]
            ||| weights[end] > 0 && weight(weights, start, end) + weights[end] > max_weight
        },
        forall|k: int|
            batches[b].0 <= k < batches[b].1 && #[trigger] alone[k] ==> batches[b].1 - batches[b].0
                == 1,
{
    greedy_batches_keep_limits(batches, weights, alone, max_items, max_weight, b);
    let start = batches[b].0 as int;
    lemma_batch_stops(weights, alone, start, start, max_items, max_weight);
    if b + 1 < batches.len() {
        greedy_batches_keep_limits(batches, weights, alone, max_items, max_weight, b + 1);
    }
}

proof fn lemma_batch_stops(
    weights: Seq<u64>,
    alone: Seq<bool>,
    start: int,
    end: int,
    max_items: nat,
    max_weight: u64,
)
    requires
        0 <= start <= end <= weights.len(),
        forall|k: int| start <= k < end && #[trigger] alone[k] ==> end - start == 1,
    ensures
        ({
            let stop = batch_end(weights, alone, start, end, max_items, max_weight);
            &&& end <= stop <= weights.len()
            &&& !joins(weights, alone, start, stop, max_items, max_weight)
            &&& forall|k: int| start <= k < stop && #[trigger] alone[k] ==> stop - start == 1
        }),
    decreases weights.len() - end,
{
    if joins(weights, alone, start, end, max_items, max_weight) {
        lemma_batch_stops(weights, alone, start, end + 1, max_items, max_weight);
    }
}

/// The weight of a stretch is the weight of its parts, and that of one item its own.
pub proof fn weights_add_up(weights: Seq<u64>, start: int, mid: int, end: int)
    requires
        0 <= start <= mid <= end <= weights.len(),
    ensures
        weight(weights, start, end) == weight(weights, start, mid) + weight(weights, mid, end),
        start < weights.len() ==> weight(weights, start, start + 1) == weights[start],
        weight(weights, start, start) == 0,
    decreases end - mid,
{
    if mid < end {
        weights_add_up(weights, start, mid, end - 1);
    }
    assert(weight(weights, start, start) == 0);
}

} // verus!
