//! An in-memory HTTP response cache for a request pipeline: a content store of
//! serialized responses keyed by route and request identity, an expiry index
//! that times entries out in the order they were recorded, invalidation on
//! changes with cascades to related routes, and the decisions of the caching
//! middleware around the handler chain.
pub mod cache;
pub mod expiry;
pub mod keys;
pub mod middleware;
pub mod store;

use vstd::prelude::*;

verus! {

/// Converts a lifetime configured in seconds into milliseconds, the unit
/// every timestamp of the cache is kept in; saturates at `u64::MAX`.
pub fn lifetime_millis(seconds: u64) -> (r: u64)
    ensures
        seconds * 1000 <= u64::MAX ==> r == seconds * 1000,
        seconds * 1000 > u64::MAX ==> r == u64::MAX,
{
    if seconds <= u64::MAX / 1000 {
        seconds * 1000
    } else {
        u64::MAX
    }
}

} // verus!
