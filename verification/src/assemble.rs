//! The new root of an index: which segments an update leaves in it, and which blobs it lets go of.

use crate::compact::{choose_victim, SegmentSize};
use crate::format::DeadSet;
use crate::query::Strategy;
use crate::segment::{meta_blobs, named_blobs, SegmentList, SegmentMeta, INDEX_FORMAT};
use crate::source::SourceIdentity;
use vstd::hash_set::StringHashSet;
use vstd::prelude::*;

verus! {

/// An update under way: the segments of the new root, each with its dead set, and the names of
/// all blobs that may be let go of once the new root is there.
#[derive(Debug)]
pub struct UpdateRun {
    pub metas: Vec<SegmentMeta>,
    pub dead: Vec<DeadSet>,
    pub retired: Vec<String>,
    pub compacted: bool,
}

/// A dead set without entries.
pub open spec fn nothing_dead(dead: DeadSet) -> bool {
    dead.sources@.len() == 0 && dead.documents@.len() == 0
}

/// What a merge needs to know of a segment.
pub open spec fn size_of(meta: SegmentMeta, dead: DeadSet) -> SegmentSize {
    SegmentSize {
        postings_len: meta.postings_len,
        terms_len: meta.terms_fst_len,
        docs_len: meta.docs_len,
        live: (meta.doc_count - dead.documents@.len()) as u64,
    }
}

/// The segment with another dead set.
pub open spec fn with_dead_blob(
    after: SegmentMeta,
    before: SegmentMeta,
    hash: Seq<char>,
    len: u64,
) -> bool {
    &&& after.dead_hash@ == hash
    &&& after == SegmentMeta { dead_hash: after.dead_hash, dead_len: len, ..before }
}

/// A blob is let go of where it was retired and no segment names it.
pub open spec fn let_go(
    retired: Seq<Seq<char>>,
    segments: Seq<SegmentMeta>,
    blob: Seq<char>,
) -> bool {
    retired.contains(blob) && !crate::segment::holds_blob(segments, segments.len() as int, blob)
}

fn append_names(retired: &mut Vec<String>, names: Vec<String>)
    ensures
        crate::segment::texts(final(retired)@) == crate::segment::texts(old(retired)@)
            + crate::segment::texts(names@),
{
    let mut more = names;
    let ghost before = retired@;
    retired.append(&mut more);
    assert(crate::segment::texts(before + names@) =~= crate::segment::texts(before)
        + crate::segment::texts(names@));
}

impl UpdateRun {
    /// As many dead sets as segments, none with more documents than its segment.
    pub open spec fn wf(&self) -> bool {
        &&& self.dead@.len() == self.metas@.len()
        &&& forall|k: int|
            0 <= k < self.metas@.len() ==> (#[trigger] self.dead@[k]).documents@.len()
                <= self.metas@[k].doc_count
    }

    /// The names of the retired blobs.
    pub open spec fn retired_names(&self) -> Seq<Seq<char>> {
        crate::segment::texts(self.retired@)
    }

    /// Begin with the segments of the root as it was: their blobs are retired, and none of them
    /// is in the new root yet.
    pub fn start(segments: &[SegmentMeta]) -> (run: UpdateRun)
        ensures
            run.wf(),
            run.metas@.len() == 0,
            !run.compacted,
            forall|blob: Seq<char>| #[trigger]
                run.retired_names().contains(blob) <==> crate::segment::holds_blob(
                    segments@,
                    segments@.len() as int,
                    blob,
                ),
    {
        let mut retired: Vec<String> = Vec::new();
        assert(crate::segment::texts(retired@) =~= Seq::<Seq<char>>::empty());
        let mut s: usize = 0;
        while s < segments.len()
            invariant
                s <= segments.len(),
                forall|blob: Seq<char>| #[trigger]
                    crate::segment::texts(retired@).contains(blob) <==> crate::segment::holds_blob(
                        segments@,
                        s as int,
                        blob,
                    ),
            decreases segments.len() - s,
        {
            let names = meta_blobs(&segments[s]);
            let ghost before = crate::segment::texts(retired@);
            let ghost more = crate::segment::texts(names@);
            append_names(&mut retired, names);
            assert forall|blob: Seq<char>| #[trigger]
                crate::segment::texts(retired@).contains(blob) <==> crate::segment::holds_blob(
                    segments@,
                    s + 1,
                    blob,
                ) by {
                lemma_append_contains(before, more, blob);
                crate::segment::lemma_holds_step(segments@, s as int, blob);
            }
            s = s + 1;
        }
        UpdateRun { metas: Vec::new(), dead: Vec::new(), retired, compacted: false }
    }

    /// A segment stays as it is.
    pub fn keep(&mut self, meta: SegmentMeta, dead: DeadSet)
        requires
            old(self).wf(),
            dead.documents@.len() <= meta.doc_count,
        ensures
            final(self).wf(),
            final(self).metas@ == old(self).metas@.push(meta),
            final(self).dead@ == old(self).dead@.push(dead),
            final(self).retired_names() == old(self).retired_names(),
            final(self).compacted == old(self).compacted,
    {
        self.metas.push(meta);
        self.dead.push(dead);
    }

    /// A segment stays with another dead set, which was written as a blob of its own.
    pub fn record(&mut self, meta: SegmentMeta, dead: DeadSet, hash: String, len: u64)
        requires
            old(self).wf(),
            dead.documents@.len() <= meta.doc_count,
        ensures
            final(self).wf(),
            final(self).metas@.len() == old(self).metas@.len() + 1,
            final(self).metas@.drop_last() == old(self).metas@,
            with_dead_blob(final(self).metas@.last(), meta, hash@, len),
            final(self).dead@ == old(self).dead@.push(dead),
            final(self).retired_names() == old(self).retired_names() + crate::segment::blob_names(
                final(self).metas@.last(),
            ),
            final(self).compacted == old(self).compacted,
    {
        let mut changed = meta;
        changed.dead_hash = hash;
        changed.dead_len = len;
        let names = meta_blobs(&changed);
        append_names(&mut self.retired, names);
        let ghost before = self.metas@;
        self.metas.push(changed);
        self.dead.push(dead);
        assert(self.metas@.drop_last() =~= before);
    }

    /// A segment that was written anew: one that was built, or one whose live documents took the
    /// place of an old one.
    pub fn add(&mut self, meta: SegmentMeta, repacked: bool)
        requires
            old(self).wf(),
        ensures
            final(self).wf(),
            final(self).metas@ == old(self).metas@.push(meta),
            final(self).dead@.drop_last() == old(self).dead@,
            nothing_dead(final(self).dead@.last()),
            final(self).retired_names() == old(self).retired_names() + crate::segment::blob_names(
                meta,
            ),
            final(self).compacted == (old(self).compacted || repacked),
    {
        let names = meta_blobs(&meta);
        append_names(&mut self.retired, names);
        self.metas.push(meta);
        let ghost before = self.dead@;
        self.dead.push(DeadSet::default());
        assert(self.dead@.drop_last() =~= before);
        self.compacted = self.compacted || repacked;
    }

    /// The first of the two neighbours to merge, where there are too many segments.
    pub fn victim(&self) -> (victim: Option<usize>)
        requires
            self.wf(),
        ensures
            ({
                let sizes = Seq::new(
                    self.metas@.len(),
                    |k: int| size_of(self.metas@[k], self.dead@[k]),
                );
                crate::compact::is_victim(sizes, victim)
            }),
    {
        let mut sizes: Vec<SegmentSize> = Vec::new();
        let mut k: usize = 0;
        while k < self.metas.len()
            invariant
                self.wf(),
                k <= self.metas.len(),
                sizes@.len() == k,
                forall|j: int|
                    0 <= j < k ==> #[trigger] sizes@[j] == size_of(self.metas@[j], self.dead@[j]),
            decreases self.metas.len() - k,
        {
            assert(self.dead@[k as int].documents@.len() <= self.metas@[k as int].doc_count);
            sizes.push(
                SegmentSize {
                    postings_len: self.metas[k].postings_len,
                    terms_len: self.metas[k].terms_fst_len,
                    docs_len: self.metas[k].docs_len,
                    live: self.metas[k].doc_count as u64 - self.dead[k].documents.len() as u64,
                },
            );
            k = k + 1;
        }
        assert(sizes@ =~= Seq::new(
            self.metas@.len(),
            |k: int| size_of(self.metas@[k], self.dead@[k]),
        ));
        choose_victim(sizes.as_slice())
    }

    /// Two neighbours were merged: what came out takes their place.
    pub fn merge(&mut self, at: usize, merged: SegmentMeta)
        requires
            old(self).wf(),
            at + 1 < old(self).metas@.len(),
        ensures
            final(self).wf(),
            final(self).metas@ == old(self).metas@.take(at as int).push(merged) + old(
                self,
            ).metas@.skip(at + 2),
            final(self).dead@.len() == final(self).metas@.len(),
            nothing_dead(final(self).dead@[at as int]),
            forall|k: int|
                0 <= k < final(self).dead@.len() && k != at ==> #[trigger] final(self).dead@[k]
                    == old(self).dead@[if k < at { k } else { k + 1 }],
            final(self).retired_names() == old(self).retired_names(),
            final(self).compacted,
    {
        let ghost before = *self;
        self.metas.remove(at);
        self.metas.remove(at);
        self.metas.insert(at, merged);
        self.dead.remove(at);
        self.dead.remove(at);
        self.dead.insert(at, DeadSet::default());
        self.compacted = true;
        proof {
            assert(self.metas@ =~= before.metas@.take(at as int).push(merged) + before.metas@.skip(
                at + 2,
            ));
            assert forall|k: int| 0 <= k < self.dead@.len() && k != at implies #[trigger] self.dead@[
            k] == before.dead@[if k < at { k } else { k + 1 }] && self.metas@[k] == before.metas@[
            if k < at { k } else { k + 1 }] by {}
        }
    }

    /// The new root, and the blobs that are let go of once it has taken the old one's place.
    pub fn finish(self, source: SourceIdentity, strategy: Strategy) -> (done: (
        SegmentList,
        Vec<String>,
    ))
        ensures
            done.0 == (SegmentList {
                format: INDEX_FORMAT,
                source,
                strategy,
                segments: done.0.segments,
            }),
            done.0.segments@ == self.metas@,
            crate::segment::texts(done.1@).no_duplicates(),
            forall|blob: Seq<char>| #[trigger]
                crate::segment::texts(done.1@).contains(blob) <==> let_go(
                    self.retired_names(),
                    self.metas@,
                    blob,
                ),
    {
        let UpdateRun { metas, dead: _, retired, compacted: _ } = self;
        let kept = named_blobs(metas.as_slice());
        let mut blobs: Vec<String> = Vec::new();
        let mut dropped: StringHashSet = StringHashSet::new();
        let ghost names = crate::segment::texts(retired@);
        let mut n: usize = 0;
        assert(crate::segment::texts(blobs@) =~= Seq::<Seq<char>>::empty());
        while n < retired.len()
            invariant
                n <= retired.len(),
                names == crate::segment::texts(retired@),
                forall|blob: Seq<char>| #[trigger]
                    kept@.contains(blob) <==> crate::segment::holds_blob(
                        metas@,
                        metas@.len() as int,
                        blob,
                    ),
                crate::segment::texts(blobs@).no_duplicates(),
                forall|blob: Seq<char>| #[trigger]
                    dropped@.contains(blob) <==> crate::segment::texts(blobs@).contains(blob),
                forall|blob: Seq<char>| #[trigger]
                    crate::segment::texts(blobs@).contains(blob) <==> let_go(
                        names.take(n as int),
                        metas@,
                        blob,
                    ),
            decreases retired.len() - n,
        {
            let name = &retired[n];
            proof {
                crate::ids::lemma_take_contains(names, n as int);
                assert(names[n as int] == name@);
            }
            if !kept.contains(name.as_str()) && !dropped.contains(name.as_str()) {
                let ghost held = crate::segment::texts(blobs@);
                dropped.insert(name.clone());
                blobs.push(name.clone());
                proof {
                    assert(crate::segment::texts(blobs@) =~= held.push(name@));
                    crate::ids::lemma_push_contains(held, name@);
                    assert(!held.contains(name@));
                    assert(crate::segment::texts(blobs@).no_duplicates());
                }
            }
            n = n + 1;
        }
        assert(names.take(n as int) =~= names);
        (SegmentList { format: INDEX_FORMAT, source, strategy, segments: metas }, blobs)
    }
}

/// Letting go is safe and complete: no blob that the new root names is let go of, and every blob
/// of a retired segment that it does not name is.
pub proof fn retired_segments_are_named_or_let_go(run: UpdateRun, retired: SegmentMeta, blob: Seq<char>)
    requires
        forall|name: Seq<char>| #[trigger]
            crate::segment::blob_names(retired).contains(name) ==> run.retired_names().contains(name),
        crate::segment::blob_names(retired).contains(blob),
    ensures
        let_go(run.retired_names(), run.metas@, blob) <==> !crate::segment::holds_blob(
            run.metas@,
            run.metas@.len() as int,
            blob,
        ),
        forall|m: int, name: Seq<char>|
            0 <= m < run.metas@.len() && #[trigger] crate::segment::blob_names(
                run.metas@[m],
            ).contains(name) ==> !let_go(run.retired_names(), run.metas@, name),
{
    assert forall|m: int, name: Seq<char>|
        0 <= m < run.metas@.len() && #[trigger] crate::segment::blob_names(
            run.metas@[m],
        ).contains(name) implies !let_go(run.retired_names(), run.metas@, name) by {
        assert(crate::segment::holds_blob(run.metas@, run.metas@.len() as int, name));
    }
}

/// A segment that was built and merged away in one run leaves no blob behind that the new root
/// does not name.
pub proof fn merged_newborns_are_retired(
    before: UpdateRun,
    added: UpdateRun,
    merged: UpdateRun,
    meta: SegmentMeta,
    blob: Seq<char>,
)
    requires
        added.retired_names() == before.retired_names() + crate::segment::blob_names(meta),
        merged.retired_names() == added.retired_names(),
        crate::segment::blob_names(meta).contains(blob),
    ensures
        let_go(merged.retired_names(), merged.metas@, blob) || crate::segment::holds_blob(
            merged.metas@,
            merged.metas@.len() as int,
            blob,
        ),
{
    lemma_append_contains(before.retired_names(), crate::segment::blob_names(meta), blob);
}

proof fn lemma_append_contains(a: Seq<Seq<char>>, b: Seq<Seq<char>>, x: Seq<char>)
    ensures
        (a + b).contains(x) <==> a.contains(x) || b.contains(x),
{
    let both = a + b;
    if a.contains(x) {
        let k = choose|k: int| 0 <= k < a.len() && a[k] == x;
        assert(both[k] == x);
    }
    if b.contains(x) {
        let k = choose|k: int| 0 <= k < b.len() && b[k] == x;
        assert(both[a.len() + k] == x);
    }
    if both.contains(x) {
        let k = choose|k: int| 0 <= k < both.len() && both[k] == x;
        if k >= a.len() {
            assert(b[k - a.len()] == x);
        }
    }
}

/// For merging, a segment counts with what its blobs take and with the documents in it that live.
pub proof fn sizes_count_what_lives(meta: SegmentMeta, dead: DeadSet)
    requires
        dead.documents@.len() <= meta.doc_count,
    ensures
        size_of(meta, dead).live + dead.documents@.len() == meta.doc_count,
        size_of(meta, dead).postings_len == meta.postings_len,
        size_of(meta, dead).terms_len == meta.terms_fst_len,
        size_of(meta, dead).docs_len == meta.docs_len,
{
}

} // verus!
