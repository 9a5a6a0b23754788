use vstd::prelude::*;

verus! {

/// Every failure the engine reports.  All of them abort the current build;
/// none is retried internally.
#[derive(Debug, PartialEq, Eq)]
pub enum BuildError {
    /// An unknown resource id was referenced.
    NotFound(u64),
    /// The expansion depth guard tripped while registering a resource.
    RecursionLimitExceeded,
    /// Two resources that are not equal claimed the same output path.
    PathCollision { path: String, existing: u64, incoming: u64 },
    /// A dependency edge would have violated acyclicity.
    CycleDetected { from: u64, to: u64 },
    /// A resource's generation step raised an error.
    GenerationFailed { id: u64, message: String },
    /// The cache's persistence layer failed.
    CacheIOError { message: String },
}

} // verus!
