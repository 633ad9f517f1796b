//! What an index is an index of.

use crate::error::IndexError;
use crate::text::{ends_with_slash, is_blank, joined, starts_with, text_eq};
use vstd::prelude::*;

verus! {

/// A directory, or the objects under a prefix of a bucket.
#[derive(Debug, PartialEq, Eq)]
pub enum SourceIdentity {
    Local { prefix: String },
    S3 { endpoint: String, bucket: String, prefix: String },
}

impl Clone for SourceIdentity {
    fn clone(&self) -> (copy: SourceIdentity)
        ensures
            copy.identity() == self.identity(),
    {
        match self {
            SourceIdentity::Local { prefix } => SourceIdentity::Local { prefix: prefix.clone() },
            SourceIdentity::S3 { endpoint, bucket, prefix } => SourceIdentity::S3 {
                endpoint: endpoint.clone(),
                bucket: bucket.clone(),
                prefix: prefix.clone(),
            },
        }
    }
}

/// The model of `SourceIdentity`.
pub enum SourceView {
    Local { prefix: Seq<char> },
    S3 { endpoint: Seq<char>, bucket: Seq<char>, prefix: Seq<char> },
}

pub open spec fn slash_ended(text: Seq<char>) -> bool {
    text.len() > 0 && text.last() == '/'
}

/// Why an identity is refused.
pub open spec fn source_error(source: SourceView) -> Option<IndexError> {
    match source {
        SourceView::Local { prefix } => if slash_ended(prefix) {
            None
        } else {
            Some(IndexError::LocalPrefix)
        },
        SourceView::S3 { endpoint, bucket, prefix } => if endpoint.len() == 0 {
            Some(IndexError::S3Endpoint)
        } else if bucket.len() == 0 {
            Some(IndexError::S3Bucket)
        } else if prefix.len() > 0 && !slash_ended(prefix) {
            Some(IndexError::S3Prefix)
        } else {
            None
        },
    }
}

/// An index of `source` holds what is asked for: the same backend, and a prefix at or below its
/// own.
pub open spec fn contains_source(source: SourceView, requested: SourceView) -> bool {
    match (source, requested) {
        (SourceView::Local { prefix }, SourceView::Local { prefix: wanted }) => {
            crate::text::has_prefix(wanted, prefix)
        },
        (
            SourceView::S3 { endpoint, bucket, prefix },
            SourceView::S3 { endpoint: endpoint2, bucket: bucket2, prefix: wanted },
        ) => endpoint == endpoint2 && bucket == bucket2 && crate::text::has_prefix(wanted, prefix),
        _ => false,
    }
}

pub open spec fn description(source: SourceView) -> Seq<char> {
    match source {
        SourceView::Local { prefix } => "local directory "@ + prefix,
        SourceView::S3 { endpoint, bucket, prefix } => "s3://"@ + bucket + "/"@ + prefix + " at "@
            + endpoint,
    }
}

impl SourceIdentity {
    pub open spec fn identity(&self) -> SourceView {
        match *self {
            SourceIdentity::Local { prefix } => SourceView::Local { prefix: prefix@ },
            SourceIdentity::S3 { endpoint, bucket, prefix } => SourceView::S3 {
                endpoint: endpoint@,
                bucket: bucket@,
                prefix: prefix@,
            },
        }
    }

    /// Check that the source is named well.
    pub fn validate(&self) -> (checked: Result<(), IndexError>)
        ensures
            match checked {
                Ok(_) => source_error(self.identity()) is None,
                Err(e) => source_error(self.identity()) == Some(e),
            },
    {
        match self {
            SourceIdentity::Local { prefix } => {
                if !ends_with_slash(prefix.as_str()) {
                    return Err(IndexError::LocalPrefix);
                }
            },
            SourceIdentity::S3 { endpoint, bucket, prefix } => {
                if is_blank(endpoint.as_str()) {
                    return Err(IndexError::S3Endpoint);
                }
                if is_blank(bucket.as_str()) {
                    return Err(IndexError::S3Bucket);
                }
                if !is_blank(prefix.as_str()) && !ends_with_slash(prefix.as_str()) {
                    return Err(IndexError::S3Prefix);
                }
            },
        }
        Ok(())
    }

    /// Whether an index of this source holds what is asked for.
    pub fn can_search(&self, requested: &SourceIdentity) -> (holds: bool)
        ensures
            holds == contains_source(self.identity(), requested.identity()),
    {
        match (self, requested) {
            (
                SourceIdentity::Local { prefix },
                SourceIdentity::Local { prefix: wanted },
            ) => starts_with(wanted.as_str(), prefix.as_str()),
            (
                SourceIdentity::S3 { endpoint, bucket, prefix },
                SourceIdentity::S3 { endpoint: endpoint2, bucket: bucket2, prefix: wanted },
            ) => text_eq(endpoint.as_str(), endpoint2.as_str()) && text_eq(
                bucket.as_str(),
                bucket2.as_str(),
            ) && starts_with(wanted.as_str(), prefix.as_str()),
            _ => false,
        }
    }

    /// The same source.
    pub fn same(&self, other: &SourceIdentity) -> (same: bool)
        ensures
            same == (self.identity() == other.identity()),
    {
        match (self, other) {
            (
                SourceIdentity::Local { prefix },
                SourceIdentity::Local { prefix: prefix2 },
            ) => text_eq(prefix.as_str(), prefix2.as_str()),
            (
                SourceIdentity::S3 { endpoint, bucket, prefix },
                SourceIdentity::S3 { endpoint: endpoint2, bucket: bucket2, prefix: prefix2 },
            ) => text_eq(endpoint.as_str(), endpoint2.as_str()) && text_eq(
                bucket.as_str(),
                bucket2.as_str(),
            ) && text_eq(prefix.as_str(), prefix2.as_str()),
            _ => false,
        }
    }

    /// The source in words.
    pub fn describe(&self) -> (text: String)
        ensures
            text@ == description(self.identity()),
    {
        match self {
            SourceIdentity::Local { prefix } => joined("local directory ", prefix.as_str()),
            SourceIdentity::S3 { endpoint, bucket, prefix } => {
                let path = joined(joined("s3://", bucket.as_str()).as_str(), "/");
                let at = joined(joined(path.as_str(), prefix.as_str()).as_str(), " at ");
                joined(at.as_str(), endpoint.as_str())
            },
        }
    }
}

/// An index of a source can be searched for that source, and for what lies below a source below
/// it.
pub proof fn searchable_sources_nest(a: SourceView, b: SourceView, c: SourceView)
    requires
        contains_source(a, b),
        contains_source(b, c),
    ensures
        contains_source(a, a),
        contains_source(a, c),
{
    match (a, b, c) {
        (
            SourceView::Local { prefix: p },
            SourceView::Local { prefix: q },
            SourceView::Local { prefix: r },
        ) => {
            lemma_prefix_nests(p, q, r);
        },
        (
            SourceView::S3 { prefix: p, .. },
            SourceView::S3 { prefix: q, .. },
            SourceView::S3 { prefix: r, .. },
        ) => {
            lemma_prefix_nests(p, q, r);
        },
        _ => {},
    }
}

proof fn lemma_prefix_nests(p: Seq<char>, q: Seq<char>, r: Seq<char>)
    requires
        crate::text::has_prefix(q, p),
        crate::text::has_prefix(r, q),
    ensures
        crate::text::has_prefix(p, p),
        crate::text::has_prefix(r, p),
{
    let a = crate::text::utf8(p);
    let b = crate::text::utf8(q);
    let c = crate::text::utf8(r);
    assert(a =~= a.subrange(0, a.len() as int));
    assert(c.subrange(0, b.len() as int).subrange(0, a.len() as int) =~= c.subrange(
        0,
        a.len() as int,
    ));
}

/// Where the keys of a source are: on this machine, or in a bucket of an endpoint.
pub open spec fn same_place(a: SourceView, b: SourceView) -> bool {
    match a {
        SourceView::Local { .. } => b is Local,
        SourceView::S3 { endpoint, bucket, .. } => b matches SourceView::S3 {
            endpoint: endpoint2,
            bucket: bucket2,
            ..
        } && endpoint == endpoint2 && bucket == bucket2,
    }
}

/// The prefix of a source's keys.
pub open spec fn prefix_of(source: SourceView) -> Seq<char> {
    match source {
        SourceView::Local { prefix } => prefix,
        SourceView::S3 { prefix, .. } => prefix,
    }
}

/// A source can be searched in an index if and only if the index holds all its keys: it is of the same
/// place, and every key with its prefix has the prefix that the index was built for.
pub proof fn searchable_sources_hold_all_keys(a: SourceView, b: SourceView)
    ensures
        contains_source(a, b) <==> same_place(a, b) && forall|key: Seq<char>| #[trigger]
            crate::text::has_prefix(key, prefix_of(b)) ==> crate::text::has_prefix(
                key,
                prefix_of(a),
            ),
{
    let (p, q) = (crate::text::utf8(prefix_of(a)), crate::text::utf8(prefix_of(b)));
    assert(crate::text::has_prefix(prefix_of(b), prefix_of(b))) by {
        assert(q =~= q.subrange(0, q.len() as int));
    }
    if crate::text::has_prefix(prefix_of(b), prefix_of(a)) {
        assert forall|key: Seq<char>| #[trigger]
            crate::text::has_prefix(key, prefix_of(b)) implies crate::text::has_prefix(
            key,
            prefix_of(a),
        ) by {
            let k = crate::text::utf8(key);
            assert(p == q.subrange(0, p.len() as int));
            assert(q == k.subrange(0, q.len() as int));
            assert(k.subrange(0, p.len() as int) =~= p);
        }
    }
}

} // verus!
