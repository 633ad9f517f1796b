//! Choosing how grams are cut, from a sample of the objects to index.

use vstd::prelude::*;

use crate::error::IndexError;
use crate::query::Strategy;
use crate::update::ListedObject;

verus! {

/// How many objects are sampled.
pub const SAMPLE_DOCS: usize = 16;

/// Larger objects are not sampled.
pub const SAMPLE_MAX_ENCODED: u64 = 33554432;

/// How much of a sampled object's text is read.
pub const SAMPLE_WINDOW: usize = 262144;

/// The first bytes of a sampled object's text.
#[derive(Debug)]
pub struct SampleWindow {
    pub window: Vec<u8>,
    pub cap: usize,
}

impl SampleWindow {
    /// The window is within its bound.
    pub open spec fn wf(&self) -> bool {
        self.window@.len() <= self.cap
    }

    pub fn new(cap: usize) -> (sample: SampleWindow)
        ensures
            sample.wf(),
            sample.cap == cap,
            sample.window@.len() == 0,
    {
        SampleWindow { window: Vec::new(), cap }
    }

    /// Take as many of `bytes` as there is room for; an error once the window is full.
    pub fn write(&mut self, bytes: &[u8]) -> (written: Result<(), IndexError>)
        requires
            old(self).wf(),
        ensures
            final(self).wf(),
            final(self).cap == old(self).cap,
            final(self).window@ == (old(self).window@ + bytes@).take(
                if old(self).window@.len() + bytes@.len() < old(self).cap {
                    old(self).window@.len() as int + bytes@.len()
                } else {
                    old(self).cap as int
                },
            ),
            match written {
                Ok(_) => final(self).window@.len() < final(self).cap,
                Err(e) => final(self).window@.len() == final(self).cap && e
                    == IndexError::SampleFull,
            },
    {
        let ghost before = self.window@;
        let room: usize = self.cap - self.window.len();
        let take: usize = if bytes.len() < room {
            bytes.len()
        } else {
            room
        };
        let part: &[u8] = vstd::slice::slice_subrange(bytes, 0, take);
        self.window.extend_from_slice(part);
        assert(self.window@ =~= (before + bytes@).take(before.len() + take));
        if self.window.len() >= self.cap {
            return Err(IndexError::SampleFull);
        }
        Ok(())
    }
}

/// The positions, among the first `n` objects, of those small enough to sample.
pub open spec fn small_objects(listing: Seq<ListedObject>, n: int) -> Seq<usize>
    decreases n,
{
    if n <= 0 {
        Seq::empty()
    } else {
        let before = small_objects(listing, n - 1);
        if listing[n - 1].2 <= SAMPLE_MAX_ENCODED {
            before.push((n - 1) as usize)
        } else {
            before
        }
    }
}

/// The bytes of the first `n` objects, of all or of the small ones.
pub open spec fn listed_bytes(listing: Seq<ListedObject>, n: int, small: bool) -> nat
    decreases n,
{
    if n <= 0 {
        0
    } else {
        listed_bytes(listing, n - 1, small) + if !small || listing[n - 1].2 <= SAMPLE_MAX_ENCODED {
            listing[n - 1].2 as nat
        } else {
            0
        }
    }
}

/// Under a tenth of the bytes lie in objects small enough to sample.
pub open spec fn dominated(listing: Seq<ListedObject>) -> bool {
    let n = listing.len() as int;
    listed_bytes(listing, n, false) > 0 && listed_bytes(listing, n, true) * 10 < listed_bytes(
        listing,
        n,
        false,
    )
}

/// How far apart samples lie.
pub open spec fn sample_step(n: int) -> int {
    if n <= SAMPLE_DOCS {
        1
    } else {
        (n + SAMPLE_DOCS - 1) / SAMPLE_DOCS as int
    }
}

/// Where sample `k` lies.
#[verifier::opaque]
pub open spec fn nth(step: int, k: int) -> int {
    step * k
}

/// Sample `k` is the one where it lies.
pub open spec fn picked(picks: Seq<usize>, small: Seq<usize>, step: int, k: int) -> bool {
    0 <= nth(step, k) < small.len() && picks[k] == small[nth(step, k)]
}

/// `picks` are every `sample_step`th of `small`, up to `SAMPLE_DOCS` of them.
pub open spec fn spread(picks: Seq<usize>, small: Seq<usize>) -> bool {
    let step = sample_step(small.len() as int);
    &&& picks.len() <= SAMPLE_DOCS
    &&& forall|k: int| 0 <= k < picks.len() ==> #[trigger] picked(picks, small, step, k)
    &&& picks.len() < SAMPLE_DOCS ==> nth(step, picks.len() as int) >= small.len()
}

proof fn lemma_listed_bytes(listing: Seq<ListedObject>, n: int)
    requires
        0 <= n <= listing.len(),
    ensures
        listed_bytes(listing, n, true) <= listed_bytes(listing, n, false),
        listed_bytes(listing, n, false) <= n * u64::MAX,
        small_objects(listing, n).len() <= n,
    decreases n,
{
    if n > 0 {
        lemma_listed_bytes(listing, n - 1);
        assert((n - 1) * u64::MAX + u64::MAX == n * u64::MAX) by (nonlinear_arith);
    }
}

proof fn lemma_nth(step: int, k: int)
    ensures
        nth(step, k + 1) == nth(step, k) + step,
        nth(step, 0) == 0,
{
    reveal(nth);
    assert(step * (k + 1) == step * k + step) by (nonlinear_arith);
}

/// The objects to sample, by position: a spread of those small enough. Nothing where these carry
/// too little of the listing to speak for it.
pub fn sample_picks(listing: &[ListedObject]) -> (picks: Option<Vec<usize>>)
    ensures
        match picks {
            Some(picks) => !dominated(listing@) && spread(
                picks@,
                small_objects(listing@, listing@.len() as int),
            ),
            None => dominated(listing@),
        },
{
    let n: usize = listing.len();
    let mut small: Vec<usize> = Vec::new();
    let mut small_bytes: u128 = 0;
    let mut all_bytes: u128 = 0;
    let mut i: usize = 0;
    while i < n
        invariant
            i <= n,
            n == listing@.len(),
            small@ == small_objects(listing@, i as int),
            small_bytes == listed_bytes(listing@, i as int, true),
            all_bytes == listed_bytes(listing@, i as int, false),
        decreases n - i,
    {
        proof {
            lemma_listed_bytes(listing@, i as int);
            lemma_listed_bytes(listing@, i + 1);
            assert((i + 1) * u64::MAX <= 0xffff_ffff_ffff_ffff * 0xffff_ffff_ffff_ffff)
                by (nonlinear_arith)
                requires
                    i + 1 <= 0xffff_ffff_ffff_ffff,
            ;
        }
        let size: u64 = listing[i].2;
        all_bytes = all_bytes + size as u128;
        if size <= SAMPLE_MAX_ENCODED {
            small.push(i);
            small_bytes = small_bytes + size as u128;
        }
        i = i + 1;
    }
    if all_bytes > 0 && small_bytes < all_bytes / 10 + (if all_bytes % 10 > 0 {
        1
    } else {
        0
    }) {
        return None;
    }
    let step: usize = if small.len() <= SAMPLE_DOCS {
        1
    } else {
        small.len() / SAMPLE_DOCS + (if small.len() % SAMPLE_DOCS > 0 {
            1
        } else {
            0
        })
    };
    let ghost listed = small@;
    assert(step == sample_step(small@.len() as int));
    let mut picks: Vec<usize> = Vec::new();
    let mut at: usize = 0;
    proof {
        lemma_nth(step as int, 0);
    }
    while at < small.len() && picks.len() < SAMPLE_DOCS
        invariant
            step >= 1,
            listed == small@,
            step == sample_step(small@.len() as int),
            picks@.len() <= SAMPLE_DOCS,
            at == nth(step as int, picks@.len() as int) || (at == small@.len() && nth(
                step as int,
                picks@.len() as int,
            ) >= small@.len()),
            at <= small@.len(),
            forall|k: int|
                0 <= k < picks@.len() ==> #[trigger] picked(picks@, small@, step as int, k),
        decreases small@.len() - at,
    {
        let ghost count = picks@.len() as int;
        let ghost before = picks@;
        picks.push(small[at]);
        proof {
            lemma_nth(step as int, count);
        }
        assert forall|k: int| 0 <= k < picks@.len() implies #[trigger] picked(
            picks@,
            small@,
            step as int,
            k,
        ) by {
            if k < count {
                assert(picked(before, small@, step as int, k));
            }
        }
        if step <= small.len() - at {
            at = at + step;
        } else {
            at = small.len();
        }
    }
    assert(spread(picks@, small@));
    Some(picks)
}

/// Bytes of the first `n` samples that were classified, of all of them or of prose alone.
pub open spec fn sampled_bytes(samples: Seq<Option<(bool, u64)>>, n: int, prose: bool) -> nat
    decreases n,
{
    if n <= 0 {
        0
    } else {
        sampled_bytes(samples, n - 1, prose) + match samples[n - 1] {
            Some((reads_as_prose, len)) => if reads_as_prose || !prose {
                len as nat
            } else {
                0
            },
            None => 0,
        }
    }
}

/// How many of the first `n` samples were classified.
pub open spec fn sampled_docs(samples: Seq<Option<(bool, u64)>>, n: int) -> nat
    decreases n,
{
    if n <= 0 {
        0
    } else {
        sampled_docs(samples, n - 1) + if samples[n - 1] is Some {
            1nat
        } else {
            0
        }
    }
}

/// How long a sample is.
pub open spec fn sample_len(sample: Option<(bool, u64)>) -> int {
    match sample {
        Some((_, len)) => len as int,
        None => 0,
    }
}

/// What the samples speak for: sparse where at least half of them were classified and two thirds
/// of their bytes read as prose, trigram otherwise.
pub open spec fn vote_of(samples: Seq<Option<(bool, u64)>>) -> Strategy {
    let n = samples.len() as int;
    if sampled_bytes(samples, n, false) == 0 || sampled_docs(samples, n) * 2 < n {
        Strategy::Trigram
    } else if sampled_bytes(samples, n, true) * 3 >= sampled_bytes(samples, n, false) * 2 {
        Strategy::Sparse
    } else {
        Strategy::Trigram
    }
}

/// The strategy that the samples speak for: for each one whether it reads as prose and how long
/// it is, or nothing where it could not be had or classified.
pub fn vote(samples: &[Option<(bool, u64)>]) -> (strategy: Strategy)
    requires
        samples@.len() <= SAMPLE_DOCS,
        forall|k: int|
            0 <= k < samples@.len() ==> sample_len(#[trigger] samples@[k]) <= SAMPLE_WINDOW,
    ensures
        strategy == vote_of(samples@),
{
    let n: usize = samples.len();
    let mut prose: u64 = 0;
    let mut classified: u64 = 0;
    let mut docs: usize = 0;
    let mut i: usize = 0;
    while i < n
        invariant
            i <= n,
            n == samples@.len(),
            n <= SAMPLE_DOCS,
            forall|k: int|
                0 <= k < samples@.len() ==> sample_len(#[trigger] samples@[k]) <= SAMPLE_WINDOW,
            prose == sampled_bytes(samples@, i as int, true),
            classified == sampled_bytes(samples@, i as int, false),
            docs == sampled_docs(samples@, i as int),
            prose <= classified <= i * SAMPLE_WINDOW,
            docs <= i,
        decreases n - i,
    {
        if let Some((reads_as_prose, len)) = samples[i] {
            assert(sample_len(samples@[i as int]) <= SAMPLE_WINDOW);
            if reads_as_prose {
                prose = prose + len;
            }
            classified = classified + len;
            docs = docs + 1;
        }
        i = i + 1;
    }
    if classified == 0 || docs * 2 < n {
        return Strategy::Trigram;
    }
    if prose * 3 >= classified * 2 {
        Strategy::Sparse
    } else {
        Strategy::Trigram
    }
}

/// An empty or unreadable sample never chooses the sparse strategy.
pub proof fn votes_need_a_quorum(samples: Seq<Option<(bool, u64)>>)
    requires
        sampled_docs(samples, samples.len() as int) * 2 < samples.len() || samples.len() == 0,
    ensures
        vote_of(samples) == Strategy::Trigram,
{
}

/// The objects that samples are drawn from are those of the listing that are small enough, in its order.
pub proof fn small_objects_are_all_that_fit(listing: Seq<ListedObject>, n: int, k: int)
    requires
        0 <= n <= listing.len() <= usize::MAX,
    ensures
        forall|a: int, b: int|
            0 <= a < b < small_objects(listing, n).len() ==> (#[trigger] small_objects(listing, n)[a])
                < (#[trigger] small_objects(listing, n)[b]),
        forall|a: int|
            0 <= a < small_objects(listing, n).len() ==> (#[trigger] small_objects(listing, n)[a]) < n
                && listing[small_objects(listing, n)[a] as int].2 <= 33554432,
        0 <= k < n && listing[k].2 <= 33554432 ==> small_objects(listing, n).contains(k as usize),
    decreases n,
{
    if n > 0 {
        small_objects_are_all_that_fit(listing, n - 1, k);
        let before = small_objects(listing, n - 1);
        let all = small_objects(listing, n);
        if 0 <= k < n - 1 && listing[k].2 <= 33554432 {
            let a = choose|a: int| 0 <= a < before.len() && before[a] == k as usize;
            assert(all[a] == before[a]);
        } else if k == n - 1 && listing[k].2 <= 33554432 {
            assert(all[all.len() - 1] == k as usize);
        }
        assert forall|a: int| 0 <= a < before.len() implies #[trigger] all[a] == before[a] by {}
    }
}

/// Samples are drawn from all over the listing: from any small object, the next one picked at or before
/// it is less than a sixteenth of them away. No more than sixteen are drawn.
pub proof fn samples_span_the_listing(picks: Seq<usize>, small: Seq<usize>, i: int)
    requires
        spread(picks, small),
        0 <= i < small.len(),
    ensures
        picks.len() <= 16,
        exists|k: int, j: int|
            0 <= k < picks.len() && 0 <= j <= i && #[trigger] picks[k] == #[trigger] small[j] && (i - j)
                * 16 < small.len(),
{
    let n = small.len() as int;
    let step = sample_step(n);
    let k = i / step;
    let j = nth(step, k);
    reveal(nth);
    assert(step >= 1);
    assert(step * k <= i < step * k + step) by (nonlinear_arith)
        requires
            step >= 1,
            k == i / step,
            i >= 0,
    ;
    assert(0 <= k) by (nonlinear_arith)
        requires
            step >= 1,
            k == i / step,
            i >= 0,
    ;
    assert((step - 1) * 16 < n);
    if k >= picks.len() {
        let m = picks.len() as int;
        assert(step * m <= step * k) by (nonlinear_arith)
            requires
                step >= 1,
                m <= k,
        ;
        if m >= 16 {
            assert(step * 16 <= step * k) by (nonlinear_arith)
                requires
                    step >= 1,
                    16 <= k,
            ;
            assert(step * 16 >= n);
        }
        assert(nth(step, m) < n);
        assert(false);
    }
    assert(picked(picks, small, step, k));
    assert(picks[k] == small[j]);
    assert(0 <= j) by (nonlinear_arith)
        requires
            j == step * k,
            step >= 1,
            0 <= k,
    ;
}

/// With at least half of the samples read, prose decides: two thirds of what was read or more votes for
/// sparse grams, less for trigrams.
pub proof fn prose_decides_the_vote(samples: Seq<Option<(bool, u64)>>)
    requires
        2 * sampled_docs(samples, samples.len() as int) >= samples.len(),
        sampled_bytes(samples, samples.len() as int, false) > 0,
    ensures
        vote_of(samples) == Strategy::Sparse <==> 3 * sampled_bytes(
            samples,
            samples.len() as int,
            true,
        ) >= 2 * sampled_bytes(samples, samples.len() as int, false),
{
}

/// A sample that was read counts with its bytes, and for prose only where it reads as prose; one that
/// was not read counts for nothing.
pub proof fn samples_count_with_their_bytes(
    samples: Seq<Option<(bool, u64)>>,
    next: Option<(bool, u64)>,
    prose: bool,
)
    ensures
        ({
            let all = samples.push(next);
            let n = samples.len() as int;
            let bytes = sampled_bytes(all, n + 1, prose) - sampled_bytes(samples, n, prose);
            let docs = sampled_docs(all, n + 1) - sampled_docs(samples, n);
            match next {
                Some((reads_as_prose, len)) => docs == 1 && bytes == if prose && !reads_as_prose {
                    0
                } else {
                    len as int
                },
                None => docs == 0 && bytes == 0,
            }
        }),
{
    let all = samples.push(next);
    lemma_samples_before(all, samples, samples.len() as int, prose);
}

proof fn lemma_samples_before(
    all: Seq<Option<(bool, u64)>>,
    samples: Seq<Option<(bool, u64)>>,
    n: int,
    prose: bool,
)
    requires
        0 <= n <= samples.len() <= all.len(),
        forall|k: int| 0 <= k < samples.len() ==> #[trigger] all[k] == samples[k],
    ensures
        sampled_bytes(all, n, prose) == sampled_bytes(samples, n, prose),
        sampled_docs(all, n) == sampled_docs(samples, n),
    decreases n,
{
    if n > 0 {
        lemma_samples_before(all, samples, n - 1, prose);
        assert(all[n - 1] == samples[n - 1]);
    }
}

proof fn lemma_listed_kinds(listing: Seq<ListedObject>, n: int)
    requires
        0 <= n <= listing.len(),
    ensures
        listed_bytes(listing, n, true) <= listed_bytes(listing, n, false),
        (forall|k: int| 0 <= k < n ==> (#[trigger] listing[k]).2 <= 33554432) ==> listed_bytes(
            listing,
            n,
            true,
        ) == listed_bytes(listing, n, false),
        (forall|k: int| 0 <= k < n ==> (#[trigger] listing[k]).2 > 33554432) ==> listed_bytes(
            listing,
            n,
            true,
        ) == 0 && (n > 0 ==> listed_bytes(listing, n, false) > 0),
    decreases n,
{
    if n > 0 {
        lemma_listed_kinds(listing, n - 1);
        let last = listing[n - 1];
    }
}

/// Samples are drawn from a listing of small objects, and none from one of large objects only.
pub proof fn large_objects_are_not_sampled(listing: Seq<ListedObject>)
    ensures
        (forall|k: int| 0 <= k < listing.len() ==> (#[trigger] listing[k]).2 <= 33554432)
            ==> !dominated(listing),
        listing.len() > 0 && (forall|k: int|
            0 <= k < listing.len() ==> (#[trigger] listing[k]).2 > 33554432) ==> dominated(listing),
{
    lemma_listed_kinds(listing, listing.len() as int);
}

} // verus!
