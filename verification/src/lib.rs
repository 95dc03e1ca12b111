//! A static-file HTTP serving engine.
//!
//! Given an immutable [`options::ServiceOptions`] and, per request, the raw
//! URL path together with plain facts about the file system (does the target
//! exist, is it a file or a directory, its size and modification time), the
//! library decides between serving the file, serving a directory's index
//! file, listing the directory, redirecting, or rejecting the request, and
//! assembles the full response: status, headers and body plan.  All file
//! system probing and socket work is left to the caller.

use vstd::prelude::*;

pub mod options;
pub mod pct;
pub mod cond;
pub mod etag;
pub mod httpdate;
pub mod listing;
pub mod resolve;
pub mod response;
pub mod serve;
pub mod unicode;

verus! {

/// The views of a sequence of byte vectors.
pub open spec fn views_of(v: Seq<Vec<u8>>) -> Seq<Seq<u8>> {
    Seq::new(v.len(), |i: int| v[i]@)
}

/// Compares two byte slices for equality.
pub fn bytes_eq(a: &[u8], b: &[u8]) -> (r: bool)
    ensures
        r == (a@ == b@),
{
    if a.len() != b.len() {
        assert(a@ != b@);
        return false;
    }
    let mut i: usize = 0;
    while i < a.len()
        invariant
            0 <= i <= a.len(),
            a.len() == b.len(),
            forall|j: int| 0 <= j < i ==> a@[j] == b@[j],
        decreases a.len() - i,
    {
        if a[i] != b[i] {
            return false;
        }
        i += 1;
    }
    assert(a@ =~= b@);
    true
}

} // verus!
