//! What of a local cache can be trusted.

use vstd::prelude::*;

use crate::digest::hash_text_matches;
use crate::error::IndexError;
use crate::format::DeadSet;
use crate::text::decimal;
use crate::text::joined;
use crate::text::text_eq;

verus! {

/// The bytes found in the cache, if they are those that were asked for; nothing if they must be
/// fetched.
pub fn cached_bytes(held: Option<Vec<u8>>, expected_hash: &str) -> (bytes: Option<Vec<u8>>)
    ensures
        bytes == match held {
            Some(held) => if crate::digest::sha256_hex_of(held@) == expected_hash@ {
                Some(held)
            } else {
                None
            },
            None => None,
        },
{
    match held {
        Some(held) => if hash_text_matches(held.as_slice(), expected_hash) {
            Some(held)
        } else {
            None
        },
        None => None,
    }
}

/// What is wrong with a blob that was fetched.
pub open spec fn blob_error(bytes: Seq<u8>, expected_len: Option<u64>, expected_hash: Seq<char>) -> Option<
    IndexError,
> {
    if crate::digest::sha256_hex_of(bytes) != expected_hash {
        Some(IndexError::BlobHash)
    } else if expected_len is Some && bytes.len() != expected_len->0 {
        Some(IndexError::BlobLength)
    } else {
        None
    }
}

/// Check a blob that was fetched: its hash, and its length where it is known.
pub fn check_blob(bytes: &[u8], expected_len: Option<u64>, expected_hash: &str) -> (checked: Result<
    (),
    IndexError,
>)
    ensures
        match checked {
            Ok(_) => blob_error(bytes@, expected_len, expected_hash@) is None,
            Err(e) => blob_error(bytes@, expected_len, expected_hash@) == Some(e),
        },
{
    if !hash_text_matches(bytes, expected_hash) {
        return Err(IndexError::BlobHash);
    }
    if let Some(len) = expected_len {
        if bytes.len() as u64 != len {
            return Err(IndexError::BlobLength);
        }
    }
    Ok(())
}

/// What marks a file of this hash, last changed then, as verified.
pub open spec fn marker_text(expected_hash: Seq<char>, secs: u64, nanos: u32) -> Seq<char> {
    expected_hash + "\n"@ + crate::text::decimal_text(secs as nat) + ":"@
        + crate::text::decimal_text(nanos as nat)
}

/// What marks a file of this hash, last changed then, as verified.
pub fn verification_text(expected_hash: &str, secs: u64, nanos: u32) -> (text: String)
    ensures
        text@ == marker_text(expected_hash@, secs, nanos),
{
    let head = joined(joined(expected_hash, "\n").as_str(), decimal(secs).as_str());
    joined(joined(head.as_str(), ":").as_str(), decimal(nanos as u64).as_str())
}

/// A file in the cache.
#[derive(Debug)]
pub struct CachedFile {
    pub len: u64,
    pub secs: u64,
    pub nanos: u32,
    /// What stands in the file that marks it as verified, if there is one.
    pub marker: Option<String>,
}

/// What to do about a file that may be cached.
#[derive(Debug, Clone, Copy, PartialEq, Eq, Structural)]
pub enum CacheAction {
    /// It was verified and has not changed since.
    Trust,
    /// It has the right length: hash it, and mark it if the hash is right.
    Hash,
    /// It is not there or not the right one.
    Fetch,
}

/// What to do about a file that may be cached.
pub open spec fn action_of(
    file: Option<CachedFile>,
    expected_len: u64,
    expected_hash: Seq<char>,
) -> CacheAction {
    match file {
        None => CacheAction::Fetch,
        Some(file) => if file.len != expected_len {
            CacheAction::Fetch
        } else if file.marker is Some && file.marker->0@ == marker_text(
            expected_hash,
            file.secs,
            file.nanos,
        ) {
            CacheAction::Trust
        } else {
            CacheAction::Hash
        },
    }
}

/// What to do about a file that may be cached. A marker is good only for the hash and the time of
/// change that it was written for.
pub fn cache_action(file: &Option<CachedFile>, expected_len: u64, expected_hash: &str) -> (action:
    CacheAction)
    ensures
        action == action_of(*file, expected_len, expected_hash@),
{
    match file {
        None => CacheAction::Fetch,
        Some(file) => {
            if file.len != expected_len {
                return CacheAction::Fetch;
            }
            match &file.marker {
                Some(marker) => {
                    let expected = verification_text(expected_hash, file.secs, file.nanos);
                    if text_eq(marker.as_str(), expected.as_str()) {
                        CacheAction::Trust
                    } else {
                        CacheAction::Hash
                    }
                },
                None => CacheAction::Hash,
            }
        },
    }
}

/// Check a dead set before its segment's tables are at hand: the last document that it names must
/// be one of the segment's.
pub fn check_dead(dead: &DeadSet, doc_count: u32) -> (checked: Result<(), IndexError>)
    ensures
        match checked {
            Ok(_) => dead.documents@.len() > 0 ==> dead.documents@.last() < doc_count,
            Err(e) => dead.documents@.len() > 0 && dead.documents@.last() >= doc_count && e
                == IndexError::DeadDocumentBounds,
        },
{
    let n: usize = dead.documents.len();
    if n > 0 && dead.documents[n - 1] >= doc_count {
        return Err(IndexError::DeadDocumentBounds);
    }
    Ok(())
}

/// Once marked, a file is trusted as long as it does not change, and no longer.
pub proof fn markers_follow_changes(
    file: CachedFile,
    expected_hash: Seq<char>,
    secs: u64,
    nanos: u32,
)
    requires
        file.marker is Some,
        file.marker->0@ == marker_text(expected_hash, secs, nanos),
    ensures
        file.secs == secs && file.nanos == nanos ==> action_of(
            Some(file),
            file.len,
            expected_hash,
        ) == CacheAction::Trust,
        forall|len: u64|
            len != file.len ==> #[trigger] action_of(Some(file), len, expected_hash)
                == CacheAction::Fetch,
{
}

proof fn lemma_times_split(s1: Seq<char>, n1: Seq<char>, s2: Seq<char>, n2: Seq<char>)
    requires
        forall|k: int| 0 <= k < s1.len() ==> (#[trigger] s1[k]) != ':',
        forall|k: int| 0 <= k < s2.len() ==> (#[trigger] s2[k]) != ':',
        s1 + ":"@ + n1 == s2 + ":"@ + n2,
    ensures
        s1 == s2,
        n1 == n2,
{
    reveal_strlit(":");
    let left = s1 + ":"@ + n1;
    let right = s2 + ":"@ + n2;
    assert(left[s1.len() as int] == ':');
    assert(right[s2.len() as int] == ':');
    if s1.len() < s2.len() {
        assert(right[s1.len() as int] == s2[s1.len() as int]);
    }
    if s2.len() < s1.len() {
        assert(left[s2.len() as int] == s1[s2.len() as int]);
    }
    assert forall|k: int| 0 <= k < s1.len() implies s1[k] == s2[k] by {
        assert(left[k] == s1[k] && right[k] == s2[k]);
    }
    assert(s1 =~= s2);
    let at = s1.len() + 1;
    assert(left.skip(at as int) =~= n1);
    assert(right.skip(at as int) =~= n2);
}

/// A cached file is trusted only as it was when it was checked: with the length and the hash expected,
/// and unchanged since. One that was written again, or whose marker is of another hash, is hashed anew.
pub proof fn changed_files_are_not_trusted(
    file: CachedFile,
    expected_len: u64,
    expected_hash: Seq<char>,
    checked_hash: Seq<char>,
    secs: u64,
    nanos: u32,
)
    requires
        file.marker is Some,
        file.marker->0@ == marker_text(checked_hash, secs, nanos),
        checked_hash.len() == expected_hash.len(),
    ensures
        action_of(Some(file), expected_len, expected_hash) == if file.len != expected_len {
            CacheAction::Fetch
        } else if checked_hash == expected_hash && file.secs == secs && file.nanos == nanos {
            CacheAction::Trust
        } else {
            CacheAction::Hash
        },
{
    let checked = marker_text(checked_hash, secs, nanos);
    let expected = marker_text(expected_hash, file.secs, file.nanos);
    let (s1, n1) = (
        crate::text::decimal_text(secs as nat),
        crate::text::decimal_text(nanos as nat),
    );
    let (s2, n2) = (
        crate::text::decimal_text(file.secs as nat),
        crate::text::decimal_text(file.nanos as nat),
    );
    crate::text::decimals_spell_their_number(secs as nat);
    crate::text::decimals_spell_their_number(nanos as nat);
    crate::text::decimals_spell_their_number(file.secs as nat);
    crate::text::decimals_spell_their_number(file.nanos as nat);
    if checked == expected {
        reveal_strlit("\n");
        let h = checked_hash.len() as int;
        assert(checked.take(h) =~= checked_hash);
        assert(expected.take(h) =~= expected_hash);
        assert(checked.skip(h + 1) =~= s1 + ":"@ + n1);
        assert(expected.skip(h + 1) =~= s2 + ":"@ + n2);
        lemma_times_split(s1, n1, s2, n2);
    }
}

} // verus!
