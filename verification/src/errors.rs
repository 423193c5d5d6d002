//! Error kinds surfaced by the fetch flow.

use vstd::prelude::*;

verus! {

/// Everything that can make a single fetch fail.  Every kind is fatal to the
/// current fetch; nothing is retried internally.
#[derive(Clone, Copy, PartialEq, Eq, Structural, Debug)]
pub enum FetchError {
    /// The tracker URL does not parse or lacks a host.
    MalformedTrackerUrl,
    /// No declared size and no prior cached directory.
    MissingSize,
    /// A cache file exists but does not deserialize.
    CacheLoadFailure,
    /// Writing the directory back to the cache store failed.
    CachePersistFailure,
    /// The upstream connection permit was not obtained in time.
    AdmissionTimeout,
    /// The upstream announce did not complete in time.
    OriginTimeout,
    /// The transport below the upstream announce failed.
    OriginTransport,
    /// The upstream response fails to parse or is structurally invalid.
    OriginProtocol,
}

impl FetchError {
    /// Short stable description, usable by an HTTP layer.
    pub fn describe(&self) -> (r: &'static str)
        ensures
            r@.len() > 0,
    {
        proof {
            reveal_strlit("malformed tracker url");
            reveal_strlit("missing size");
            reveal_strlit("cache load failure");
            reveal_strlit("cache persist failure");
            reveal_strlit("admission timeout");
            reveal_strlit("origin timeout");
            reveal_strlit("origin transport failure");
            reveal_strlit("origin protocol failure");
        }
        match self {
            FetchError::MalformedTrackerUrl => "malformed tracker url",
            FetchError::MissingSize => "missing size",
            FetchError::CacheLoadFailure => "cache load failure",
            FetchError::CachePersistFailure => "cache persist failure",
            FetchError::AdmissionTimeout => "admission timeout",
            FetchError::OriginTimeout => "origin timeout",
            FetchError::OriginTransport => "origin transport failure",
            FetchError::OriginProtocol => "origin protocol failure",
        }
    }
}

} // verus!
